//! Text as sequences of characters: blanks, words, lines, fields, order.
//!
//! Everything that the sampler reads (`/proc` files, tool output, the ledger)
//! arrives as text. The functions here cut such text into pieces; each one is
//! specified by a function on `Seq<char>`.
use vstd::prelude::*;
use vstd::slice::slice_subrange;

verus! {

/// `String::push` puts one character at the end of the string.
pub assume_specification[ String::push ](s: &mut String, c: char)
    ensures
        final(s)@ == old(s)@.push(c),
;

// ---------------------------------------------------------------------------
// Characters
// ---------------------------------------------------------------------------

/// The Unicode property `White_Space`.
pub open spec fn is_blank(c: char) -> bool {
    let n = c as int;
    ||| 0x09 <= n <= 0x0D
    ||| n == 0x20
    ||| n == 0x85
    ||| n == 0xA0
    ||| n == 0x1680
    ||| 0x2000 <= n <= 0x200A
    ||| n == 0x2028
    ||| n == 0x2029
    ||| n == 0x202F
    ||| n == 0x205F
    ||| n == 0x3000
}

/// Space, tab, line feed, form feed and carriage return.
pub open spec fn is_ascii_blank(c: char) -> bool {
    let n = c as int;
    n == 0x20 || n == 0x09 || n == 0x0A || n == 0x0C || n == 0x0D
}

/// The decimal digits `0` to `9`.
pub open spec fn is_digit(c: char) -> bool {
    '0' <= c <= '9'
}

/// A set of characters that a scan looks for or skips.
#[derive(Clone, Copy, Debug)]
pub enum Class {
    /// This one character.
    Only(char),
    /// Unicode white space.
    Blank,
    /// ASCII white space.
    AsciiBlank,
    /// ASCII white space, and this one character.
    AsciiBlankOr(char),
    /// What a decimal number in a saved file is written with.
    Numeral,
}

impl Class {
    /// Whether `c` belongs to the set.
    pub open spec fn has(self, c: char) -> bool {
        match self {
            Class::Only(d) => c == d,
            Class::Blank => is_blank(c),
            Class::AsciiBlank => is_ascii_blank(c),
            Class::AsciiBlankOr(d) => is_ascii_blank(c) || c == d,
            Class::Numeral => is_digit(c) || c == '.' || c == '-' || c == 'e' || c == 'E' || c
                == '+',
        }
    }

    /// Whether `c` belongs to the set.
    pub fn test(&self, c: char) -> (r: bool)
        ensures
            r == self.has(c),
    {
        match *self {
            Class::Only(d) => c == d,
            Class::Blank => blank(c),
            Class::AsciiBlank => ascii_blank(c),
            Class::AsciiBlankOr(d) => ascii_blank(c) || c == d,
            Class::Numeral => ('0' <= c && c <= '9') || c == '.' || c == '-' || c == 'e' || c == 'E'
                || c == '+',
        }
    }
}

/// Whether `c` is Unicode white space.
pub fn blank(c: char) -> (r: bool)
    ensures
        r == is_blank(c),
{
    let n: u32 = c as u32;
    (0x09 <= n && n <= 0x0D) || n == 0x20 || n == 0x85 || n == 0xA0 || n == 0x1680 || (0x2000 <= n
        && n <= 0x200A) || n == 0x2028 || n == 0x2029 || n == 0x202F || n == 0x205F || n == 0x3000
}

/// Whether `c` is ASCII white space.
pub fn ascii_blank(c: char) -> (r: bool)
    ensures
        r == is_ascii_blank(c),
{
    let n: u32 = c as u32;
    n == 0x20 || n == 0x09 || n == 0x0A || n == 0x0C || n == 0x0D
}

// ---------------------------------------------------------------------------
// Strings and character vectors
// ---------------------------------------------------------------------------

/// The characters of `s`, in order.
pub fn chars_of(s: &str) -> (r: Vec<char>)
    ensures
        r@ == s@,
{
    let mut v: Vec<char> = Vec::new();
    for c in it: s.chars()
        invariant
            v@ == s@.take(it.index()),
            it.seq() == s@,
    {
        v.push(c);
    }
    v
}

/// The string made of the characters `s`.
pub fn string_of(s: &[char]) -> (r: String)
    ensures
        r@ == s@,
{
    let mut out = String::new();
    push_chars(&mut out, s);
    assert(Seq::<char>::empty() + s@ =~= s@);
    out
}

/// Appends the characters `s` to `out`.
pub fn push_chars(out: &mut String, s: &[char])
    ensures
        final(out)@ == old(out)@ + s@,
{
    let ghost start = out@;
    let mut i: usize = 0;
    while i < s.len()
        invariant
            i <= s.len(),
            out@ == start + s@.take(i as int),
        decreases s.len() - i,
    {
        out.push(s[i]);
        assert(s@.take(i + 1) =~= s@.take(i as int).push(s@[i as int]));
        i += 1;
    }
    assert(s@.take(i as int) =~= s@);
}

/// The view of a string that may be missing.
pub open spec fn maybe(s: Option<String>) -> Option<Seq<char>> {
    match s {
        Some(t) => Some(t@),
        None => None,
    }
}

/// Whether two character slices hold the same text.
pub fn same(a: &[char], b: &[char]) -> (r: bool)
    ensures
        r == (a@ == b@),
{
    if a.len() != b.len() {
        return false;
    }
    let mut i: usize = 0;
    while i < a.len()
        invariant
            i <= a.len(),
            a.len() == b.len(),
            forall|j: int| 0 <= j < i ==> a@[j] == b@[j],
        decreases a.len() - i,
    {
        if a[i] != b[i] {
            return false;
        }
        i += 1;
    }
    assert(a@ =~= b@);
    true
}

/// Whether `a` is the text `b`.
pub fn is_text(a: &[char], b: &str) -> (r: bool)
    ensures
        r == (a@ == b@),
{
    let b = chars_of(b);
    same(a, b.as_slice())
}

/// Whether two strings hold the same text.
pub fn same_str(a: &str, b: &str) -> (r: bool)
    ensures
        r == (a@ == b@),
{
    let a = chars_of(a);
    is_text(a.as_slice(), b)
}

// ---------------------------------------------------------------------------
// Scanning
// ---------------------------------------------------------------------------

/// The first place at or after `i` whose character is in `k`; the end of the
/// text where there is none.
pub open spec fn scan_in(s: Seq<char>, i: int, k: Class) -> int
    decreases s.len() - i,
{
    if 0 <= i < s.len() && !k.has(s[i]) {
        scan_in(s, i + 1, k)
    } else {
        i
    }
}

/// The first place at or after `i` whose character is not in `k`; the end of
/// the text where there is none.
pub open spec fn scan_out(s: Seq<char>, i: int, k: Class) -> int
    decreases s.len() - i,
{
    if 0 <= i < s.len() && k.has(s[i]) {
        scan_out(s, i + 1, k)
    } else {
        i
    }
}

/// The end of `s[..j]` once the characters in `k` at its end are left off.
pub open spec fn scan_back(s: Seq<char>, j: int, k: Class) -> int
    decreases j,
{
    if 0 < j <= s.len() && k.has(s[j - 1]) {
        scan_back(s, j - 1, k)
    } else {
        j
    }
}

/// Where a scan for a character of `k` stops.
pub proof fn lemma_scan_in(s: Seq<char>, i: int, k: Class)
    requires
        0 <= i <= s.len(),
    ensures
        i <= scan_in(s, i, k) <= s.len(),
        forall|j: int| i <= j < scan_in(s, i, k) ==> !k.has(#[trigger] s[j]),
        scan_in(s, i, k) < s.len() ==> k.has(s[scan_in(s, i, k)]),
    decreases s.len() - i,
{
    if i < s.len() && !k.has(s[i]) {
        lemma_scan_in(s, i + 1, k);
    }
}

/// Where a scan over characters of `k` stops.
pub proof fn lemma_scan_out(s: Seq<char>, i: int, k: Class)
    requires
        0 <= i <= s.len(),
    ensures
        i <= scan_out(s, i, k) <= s.len(),
        forall|j: int| i <= j < scan_out(s, i, k) ==> k.has(#[trigger] s[j]),
        scan_out(s, i, k) < s.len() ==> !k.has(s[scan_out(s, i, k)]),
    decreases s.len() - i,
{
    if i < s.len() && k.has(s[i]) {
        lemma_scan_out(s, i + 1, k);
    }
}

/// A scan over characters of `k` stops at the first that is not in `k`.
pub proof fn lemma_scan_out_is(s: Seq<char>, i: int, k: Class, e: int)
    requires
        0 <= i <= e <= s.len(),
        forall|j: int| i <= j < e ==> k.has(#[trigger] s[j]),
        e < s.len() ==> !k.has(s[e]),
    ensures
        scan_out(s, i, k) == e,
    decreases e - i,
{
    if i < e {
        assert(k.has(s[i]));
        lemma_scan_out_is(s, i + 1, k, e);
    }
}

/// A scan for a character of `k` stops at the first that is in `k`.
pub proof fn lemma_scan_in_is(s: Seq<char>, i: int, k: Class, e: int)
    requires
        0 <= i <= e <= s.len(),
        forall|j: int| i <= j < e ==> !k.has(#[trigger] s[j]),
        e < s.len() ==> k.has(s[e]),
    ensures
        scan_in(s, i, k) == e,
    decreases e - i,
{
    if i < e {
        assert(!k.has(s[i]));
        lemma_scan_in_is(s, i + 1, k, e);
    }
}

/// A scan for a character of `k` goes by what follows alone.
pub proof fn lemma_scan_in_skip(s: Seq<char>, i: int, j: int, k: Class)
    requires
        0 <= i,
        0 <= j,
        i + j <= s.len(),
    ensures
        scan_in(s.skip(i), j, k) + i == scan_in(s, i + j, k),
    decreases s.len() - i - j,
{
    if i + j < s.len() && !k.has(s[i + j]) {
        lemma_scan_in_skip(s, i, j + 1, k);
    }
}

/// A scan over characters of `k` goes by what follows alone.
pub proof fn lemma_scan_out_skip(s: Seq<char>, i: int, j: int, k: Class)
    requires
        0 <= i,
        0 <= j,
        i + j <= s.len(),
    ensures
        scan_out(s.skip(i), j, k) + i == scan_out(s, i + j, k),
    decreases s.len() - i - j,
{
    if i + j < s.len() && k.has(s[i + j]) {
        lemma_scan_out_skip(s, i, j + 1, k);
    }
}

/// Where a backward scan over characters of `k` stops.
pub proof fn lemma_scan_back(s: Seq<char>, j: int, k: Class)
    requires
        0 <= j <= s.len(),
    ensures
        0 <= scan_back(s, j, k) <= j,
        forall|m: int| scan_back(s, j, k) <= m < j ==> k.has(#[trigger] s[m]),
        scan_back(s, j, k) > 0 ==> !k.has(s[scan_back(s, j, k) - 1]),
    decreases j,
{
    if j > 0 && k.has(s[j - 1]) {
        lemma_scan_back(s, j - 1, k);
    }
}

/// Finds the first character of `k` at or after `from`.
pub fn find_in(s: &[char], from: usize, k: Class) -> (r: usize)
    requires
        from <= s@.len(),
    ensures
        r == scan_in(s@, from as int, k),
        from <= r <= s@.len(),
{
    let mut i: usize = from;
    while i < s.len() && !k.test(s[i])
        invariant
            from <= i <= s@.len(),
            scan_in(s@, from as int, k) == scan_in(s@, i as int, k),
        decreases s.len() - i,
    {
        i += 1;
    }
    i
}

/// Finds the first character that is not in `k` at or after `from`.
pub fn find_out(s: &[char], from: usize, k: Class) -> (r: usize)
    requires
        from <= s@.len(),
    ensures
        r == scan_out(s@, from as int, k),
        from <= r <= s@.len(),
{
    let mut i: usize = from;
    while i < s.len() && k.test(s[i])
        invariant
            from <= i <= s@.len(),
            scan_out(s@, from as int, k) == scan_out(s@, i as int, k),
        decreases s.len() - i,
    {
        i += 1;
    }
    i
}

/// Leaves off the characters of `k` at the end of `s[..to]`.
pub fn find_back(s: &[char], to: usize, k: Class) -> (r: usize)
    requires
        to <= s@.len(),
    ensures
        r == scan_back(s@, to as int, k),
        r <= to,
{
    let mut j: usize = to;
    while j > 0 && k.test(s[j - 1])
        invariant
            j <= to <= s@.len(),
            scan_back(s@, to as int, k) == scan_back(s@, j as int, k),
        decreases j,
    {
        j -= 1;
    }
    j
}

/// `s` without the characters of `k` at both ends.
pub open spec fn trimmed(s: Seq<char>, k: Class) -> Seq<char> {
    let a = scan_out(s, 0, k);
    if a >= s.len() {
        Seq::empty()
    } else {
        s.subrange(a, scan_back(s, s.len() as int, k))
    }
}

/// `s` without white space at both ends.
pub open spec fn trim(s: Seq<char>) -> Seq<char> {
    trimmed(s, Class::Blank)
}

/// `s` without the characters of `k` at both ends.
pub fn trim_class(s: &[char], k: Class) -> (r: &[char])
    ensures
        r@ == trimmed(s@, k),
{
    let a = find_out(s, 0, k);
    let b = find_back(s, s.len(), k);
    proof {
        lemma_scan_out(s@, 0, k);
        lemma_scan_back(s@, s@.len() as int, k);
        if a < s@.len() && b <= a {
            assert(k.has(s@[a as int]));
        }
    }
    if a >= s.len() {
        let r = slice_subrange(s, s.len(), s.len());
        assert(r@ =~= Seq::empty());
        r
    } else {
        slice_subrange(s, a, b)
    }
}

/// `s` without white space at both ends.
pub fn trim_blank(s: &[char]) -> (r: &[char])
    ensures
        r@ == trim(s@),
{
    trim_class(s, Class::Blank)
}

/// Whether `s` starts with `t`.
pub open spec fn starts(s: Seq<char>, t: Seq<char>) -> bool {
    t.len() <= s.len() && s.take(t.len() as int) == t
}

/// Whether `s` ends with `t`.
pub open spec fn ends(s: Seq<char>, t: Seq<char>) -> bool {
    t.len() <= s.len() && s.skip(s.len() - t.len()) == t
}

/// Whether `t` stands in `s` at place `i`.
pub open spec fn occurs_at(s: Seq<char>, t: Seq<char>, i: int) -> bool {
    0 <= i && i + t.len() <= s.len() && s.subrange(i, i + t.len()) == t
}

/// Whether `t` stands anywhere in `s`.
pub open spec fn has_text(s: Seq<char>, t: Seq<char>) -> bool {
    exists|i: int| occurs_at(s, t, i)
}

/// The first place at or after `i` where `t` stands in `s`.
pub open spec fn first_at(s: Seq<char>, t: Seq<char>, i: int) -> Option<int>
    decreases s.len() - i + 1,
{
    if i < 0 || i > s.len() {
        None
    } else if occurs_at(s, t, i) {
        Some(i)
    } else {
        first_at(s, t, i + 1)
    }
}

/// What `first_at` finds is the first occurrence.
pub proof fn lemma_first_at(s: Seq<char>, t: Seq<char>, i: int)
    requires
        0 <= i,
    ensures
        match first_at(s, t, i) {
            Some(j) => i <= j && occurs_at(s, t, j) && forall|m: int|
                i <= m < j ==> !occurs_at(s, t, m),
            None => forall|m: int| i <= m ==> !occurs_at(s, t, m),
        },
    decreases s.len() - i + 1,
{
    if i <= s.len() && !occurs_at(s, t, i) {
        lemma_first_at(s, t, i + 1);
    }
}

/// Whether `t` stands in `s` at place `i`.
pub fn stands_at(s: &[char], t: &[char], i: usize) -> (r: bool)
    requires
        i <= s@.len(),
    ensures
        r == occurs_at(s@, t@, i as int),
{
    if s.len() - i < t.len() {
        return false;
    }
    same(slice_subrange(s, i, i + t.len()), t)
}

/// Finds the first place at or after `from` where `t` stands in `s`.
pub fn find_text(s: &[char], t: &[char], from: usize) -> (r: Option<usize>)
    requires
        from <= s@.len(),
    ensures
        match r {
            Some(j) => first_at(s@, t@, from as int) == Some(j as int) && j + t@.len() <= s@.len(),
            None => first_at(s@, t@, from as int) is None,
        },
{
    let mut i: usize = from;
    loop
        invariant
            from <= i <= s@.len(),
            first_at(s@, t@, from as int) == first_at(s@, t@, i as int),
        decreases s@.len() - i,
    {
        if stands_at(s, t, i) {
            return Some(i);
        }
        if i == s.len() {
            assert(first_at(s@, t@, i + 1) is None);
            return None;
        }
        i += 1;
    }
}

/// Whether `t` stands anywhere in `s`.
pub fn contains_text(s: &[char], t: &str) -> (r: bool)
    ensures
        r == has_text(s@, t@),
{
    let t = chars_of(t);
    proof {
        lemma_first_at(s@, t@, 0);
    }
    match find_text(s, t.as_slice(), 0) {
        Some(j) => {
            assert(occurs_at(s@, t@, j as int));
            true
        },
        None => {
            assert(forall|i: int| occurs_at(s@, t@, i) ==> 0 <= i);
            false
        },
    }
}

/// Whether `s` starts with `t`.
pub fn starts_with(s: &[char], t: &str) -> (r: bool)
    ensures
        r == starts(s@, t@),
{
    let t = chars_of(t);
    assert(occurs_at(s@, t@, 0) == starts(s@, t@)) by {
        if t@.len() <= s@.len() {
            assert(s@.subrange(0, t@.len() as int) =~= s@.take(t@.len() as int));
        }
    }
    stands_at(s, t.as_slice(), 0)
}

/// Whether `s` ends with `t`.
pub fn ends_with(s: &[char], t: &str) -> (r: bool)
    ensures
        r == ends(s@, t@),
{
    let t = chars_of(t);
    if t.len() > s.len() {
        return false;
    }
    assert(s@.subrange(s@.len() - t@.len(), s@.len() as int) =~= s@.skip(s@.len() - t@.len()));
    same(slice_subrange(s, s.len() - t.len(), s.len()), t.as_slice())
}

/// `s` without the prefix `t`; `None` where `s` does not start with it.
pub fn strip_prefix<'a>(s: &'a [char], t: &str) -> (r: Option<&'a [char]>)
    ensures
        match r {
            Some(rest) => starts(s@, t@) && rest@ == s@.skip(t@.len() as int),
            None => !starts(s@, t@),
        },
{
    if starts_with(s, t) {
        let n = chars_of(t).len();
        let r = slice_subrange(s, n, s.len());
        assert(r@ =~= s@.skip(n as int));
        Some(r)
    } else {
        None
    }
}

// ---------------------------------------------------------------------------
// Pieces
// ---------------------------------------------------------------------------

/// A stretch of text: where it starts, and where it ends (exclusive).
pub type Span = (int, int);

/// Whether every span lies in a text of length `n`.
pub open spec fn spans_in(p: Seq<Span>, n: int) -> bool {
    forall|i: int| 0 <= i < p.len() ==> 0 <= (#[trigger] p[i]).0 <= p[i].1 <= n
}

/// The texts that the spans cut out of `s`.
pub open spec fn cut(s: Seq<char>, p: Seq<Span>) -> Seq<Seq<char>> {
    Seq::new(p.len(), |i: int| s.subrange(p[i].0, p[i].1))
}

/// The words of `s` from place `i` on: the longest stretches without a
/// character of `k`.
pub open spec fn word_spans(s: Seq<char>, i: int, k: Class) -> Seq<Span>
    decreases s.len() - i,
{
    let a = scan_out(s, i, k);
    let b = scan_in(s, a, k);
    if i < 0 || a >= s.len() || !(i < b <= s.len()) {
        Seq::empty()
    } else {
        seq![(a, b)] + word_spans(s, b, k)
    }
}

/// The lines of `s` from place `i` on. A line ends at a line feed, or at a
/// carriage return with a line feed behind it, or at the end of the text; what
/// follows the last line feed is a line only if it is not empty.
pub open spec fn line_spans(s: Seq<char>, i: int) -> Seq<Span>
    decreases s.len() - i,
{
    let e = scan_in(s, i, Class::Only('\n'));
    if i < 0 || i >= s.len() || e < i {
        Seq::empty()
    } else if e >= s.len() {
        seq![(i, s.len() as int)]
    } else {
        let b = if e > i && s[e - 1] == '\r' {
            e - 1
        } else {
            e
        };
        seq![(i, b)] + line_spans(s, e + 1)
    }
}

/// The fields of `s` from place `i` on, which `c` separates. There is always
/// at least one.
pub open spec fn field_spans(s: Seq<char>, i: int, c: char) -> Seq<Span>
    decreases s.len() - i,
{
    let e = scan_in(s, i, Class::Only(c));
    if i < 0 || i > s.len() || e < i {
        Seq::empty()
    } else if e >= s.len() {
        seq![(i, s.len() as int)]
    } else {
        seq![(i, e)] + field_spans(s, e + 1, c)
    }
}

/// The words of `s`, between white space.
pub open spec fn words(s: Seq<char>) -> Seq<Seq<char>> {
    cut(s, word_spans(s, 0, Class::Blank))
}

/// The words of `s`, between ASCII white space.
pub open spec fn ascii_words(s: Seq<char>) -> Seq<Seq<char>> {
    cut(s, word_spans(s, 0, Class::AsciiBlank))
}

/// The lines of `s`.
pub open spec fn lines(s: Seq<char>) -> Seq<Seq<char>> {
    cut(s, line_spans(s, 0))
}

/// The fields of `s`, between separators `c`.
pub open spec fn fields(s: Seq<char>, c: char) -> Seq<Seq<char>> {
    cut(s, field_spans(s, 0, c))
}

/// Words lie in the text.
pub proof fn lemma_word_spans(s: Seq<char>, i: int, k: Class)
    requires
        0 <= i <= s.len(),
    ensures
        spans_in(word_spans(s, i, k), s.len() as int),
    decreases s.len() - i,
{
    lemma_scan_out(s, i, k);
    let a = scan_out(s, i, k);
    lemma_scan_in(s, a, k);
    let b = scan_in(s, a, k);
    if a < s.len() && b > i {
        lemma_word_spans(s, b, k);
    }
}

/// Lines lie in the text.
pub proof fn lemma_line_spans(s: Seq<char>, i: int)
    requires
        0 <= i,
    ensures
        spans_in(line_spans(s, i), s.len() as int),
    decreases s.len() - i,
{
    if i < s.len() {
        lemma_scan_in(s, i, Class::Only('\n'));
        let e = scan_in(s, i, Class::Only('\n'));
        if e < s.len() {
            lemma_line_spans(s, e + 1);
        }
    }
}

/// Fields lie in the text, and there is at least one.
pub proof fn lemma_field_spans(s: Seq<char>, i: int, c: char)
    requires
        0 <= i <= s.len(),
    ensures
        spans_in(field_spans(s, i, c), s.len() as int),
        field_spans(s, i, c).len() >= 1,
    decreases s.len() - i,
{
    lemma_scan_in(s, i, Class::Only(c));
    let e = scan_in(s, i, Class::Only(c));
    if e < s.len() {
        lemma_field_spans(s, e + 1, c);
    }
}

/// Lines go by what follows alone.
proof fn lemma_lines_skip(s: Seq<char>, i: int, j: int)
    requires
        0 <= i,
        0 <= j,
        i + j <= s.len(),
    ensures
        line_spans(s.skip(i), j).len() == line_spans(s, i + j).len(),
        forall|m: int|
            0 <= m < line_spans(s, i + j).len() ==> (#[trigger] line_spans(s.skip(i), j)[m]).0 + i
                == line_spans(s, i + j)[m].0 && line_spans(s.skip(i), j)[m].1 + i == line_spans(
                s,
                i + j,
            )[m].1,
    decreases s.len() - i - j,
{
    if i + j < s.len() {
        lemma_scan_in_skip(s, i, j, Class::Only('\n'));
        lemma_scan_in(s, i + j, Class::Only('\n'));
        let e = scan_in(s, i + j, Class::Only('\n'));
        if e < s.len() {
            lemma_lines_skip(s, i, e + 1 - i);
        }
    }
}

/// The first line of a text, and then the lines of the rest.
pub proof fn lemma_lines_first(a: Seq<char>, b: Seq<char>)
    requires
        forall|i: int| 0 <= i < a.len() ==> #[trigger] a[i] != '\n',
    ensures
        lines(a + seq!['\n'] + b) == seq![
            if a.len() > 0 && a.last() == '\r' {
                a.drop_last()
            } else {
                a
            },
        ] + lines(b),
{
    let s = a + seq!['\n'] + b;
    let n = a.len() as int;
    assert forall|i: int| 0 <= i < n implies !Class::Only('\n').has(#[trigger] s[i]) by {
        assert(s[i] == a[i]);
    }
    assert(s[n] == '\n');
    lemma_scan_in_is(s, 0, Class::Only('\n'), n);
    let first = if n > 0 && a.last() == '\r' {
        a.drop_last()
    } else {
        a
    };
    lemma_lines_skip(s, n + 1, 0);
    assert(s.skip(n + 1) =~= b);
    lemma_line_spans(b, 0);
    let rest = line_spans(s, n + 1);
    let all = line_spans(s, 0);
    if n > 0 {
        assert(s[n - 1] == a.last());
    }
    assert(all =~= seq![(0int, first.len() as int)] + rest);
    assert forall|m: int| 0 <= m < all.len() implies #[trigger] lines(s)[m] == (seq![first] + lines(
        b,
    ))[m] by {
        if m == 0 {
            assert(s.subrange(0, first.len() as int) =~= first);
        } else {
            let p = line_spans(b, 0)[m - 1];
            assert(all[m] == rest[m - 1]);
            assert(rest[m - 1].0 == p.0 + n + 1 && rest[m - 1].1 == p.1 + n + 1);
            assert(s.subrange(p.0 + n + 1, p.1 + n + 1) =~= b.subrange(p.0, p.1));
        }
    }
    assert(lines(s) =~= seq![first] + lines(b));
}

/// Text that is put behind a complete line adds its lines.
pub proof fn law_lines_add_up(a: Seq<char>, b: Seq<char>)
    requires
        a.len() == 0 || a.last() == '\n',
    ensures
        lines(a + b) == lines(a) + lines(b),
    decreases a.len(),
{
    if a.len() == 0 {
        assert(a + b =~= b);
        assert(lines(a) =~= Seq::empty());
        assert(lines(a) + lines(b) =~= lines(b));
    } else {
        lemma_scan_in(a, 0, Class::Only('\n'));
        let e = scan_in(a, 0, Class::Only('\n'));
        assert(e < a.len()) by {
            if e >= a.len() {
                assert(!Class::Only('\n').has(a[a.len() - 1]));
            }
        }
        let head = a.take(e);
        let tail = a.skip(e + 1);
        assert(a =~= head + seq!['\n'] + tail);
        assert(a + b =~= head + seq!['\n'] + (tail + b));
        if tail.len() > 0 {
            assert(tail.last() == a.last());
        }
        law_lines_add_up(tail, b);
        lemma_lines_first(head, tail);
        lemma_lines_first(head, tail + b);
        let first = if head.len() > 0 && head.last() == '\r' {
            head.drop_last()
        } else {
            head
        };
        assert(seq![first] + (lines(tail) + lines(b)) =~= seq![first] + lines(tail) + lines(b));
    }
}

proof fn lemma_fields_skip(s: Seq<char>, i: int, j: int, c: char)
    requires
        0 <= i,
        0 <= j,
        i + j <= s.len(),
    ensures
        field_spans(s.skip(i), j, c).len() == field_spans(s, i + j, c).len(),
        forall|m: int|
            0 <= m < field_spans(s, i + j, c).len() ==> (#[trigger] field_spans(
                s.skip(i),
                j,
                c,
            )[m]).0 + i == field_spans(s, i + j, c)[m].0 && field_spans(s.skip(i), j, c)[m].1 + i
                == field_spans(s, i + j, c)[m].1,
    decreases s.len() - i - j,
{
    lemma_scan_in_skip(s, i, j, Class::Only(c));
    lemma_scan_in(s, i + j, Class::Only(c));
    let e = scan_in(s, i + j, Class::Only(c));
    if e < s.len() {
        lemma_fields_skip(s, i, e + 1 - i, c);
    }
}

/// The first field of a text, and then the fields of the rest.
pub proof fn lemma_fields_first(a: Seq<char>, b: Seq<char>, c: char)
    requires
        forall|i: int| 0 <= i < a.len() ==> #[trigger] a[i] != c,
    ensures
        fields(a + seq![c] + b, c) == seq![a] + fields(b, c),
{
    let s = a + seq![c] + b;
    let n = a.len() as int;
    assert forall|i: int| 0 <= i < n implies !Class::Only(c).has(#[trigger] s[i]) by {
        assert(s[i] == a[i]);
    }
    assert(s[n] == c);
    lemma_scan_in_is(s, 0, Class::Only(c), n);
    lemma_fields_skip(s, n + 1, 0, c);
    assert(s.skip(n + 1) =~= b);
    lemma_field_spans(b, 0, c);
    let rest = field_spans(s, n + 1, c);
    let all = field_spans(s, 0, c);
    assert(all =~= seq![(0int, n)] + rest);
    assert forall|m: int| 0 <= m < all.len() implies #[trigger] fields(s, c)[m] == (seq![a]
        + fields(b, c))[m] by {
        if m == 0 {
            assert(s.subrange(0, n) =~= a);
        } else {
            let p = field_spans(b, 0, c)[m - 1];
            assert(all[m] == rest[m - 1]);
            assert(rest[m - 1].0 == p.0 + n + 1 && rest[m - 1].1 == p.1 + n + 1);
            assert(s.subrange(p.0 + n + 1, p.1 + n + 1) =~= b.subrange(p.0, p.1));
        }
    }
    assert(fields(s, c) =~= seq![a] + fields(b, c));
}

/// A text without a separator is one field.
pub proof fn lemma_fields_one(a: Seq<char>, c: char)
    requires
        forall|i: int| 0 <= i < a.len() ==> #[trigger] a[i] != c,
    ensures
        fields(a, c) == seq![a],
{
    lemma_scan_in_is(a, 0, Class::Only(c), a.len() as int);
    assert(a.subrange(0, a.len() as int) =~= a);
    assert(fields(a, c) =~= seq![a]);
}

/// The views of a list of character slices.
pub open spec fn views(v: Seq<&[char]>) -> Seq<Seq<char>> {
    Seq::new(v.len(), |i: int| v[i]@)
}

/// The words of `s` with their places, between characters of `k`.
pub fn spans_of_words(s: &[char], k: Class) -> (r: Vec<(usize, usize)>)
    ensures
        r@.len() == word_spans(s@, 0, k).len(),
        forall|i: int|
            0 <= i < r@.len() ==> (#[trigger] r@[i]).0 == word_spans(s@, 0, k)[i].0 && r@[i].1
                == word_spans(s@, 0, k)[i].1,
        forall|i: int| 0 <= i < r@.len() ==> (#[trigger] r@[i]).0 <= r@[i].1 <= s@.len(),
{
    let mut out: Vec<(usize, usize)> = Vec::new();
    let ghost all = word_spans(s@, 0, k);
    let mut i: usize = 0;
    assert(word_spans(s@, 0, k) =~= Seq::<Span>::empty() + word_spans(s@, 0, k));
    loop
        invariant_except_break
            all.len() == out@.len() + word_spans(s@, i as int, k).len(),
            forall|j: int|
                out@.len() <= j < all.len() ==> #[trigger] all[j] == word_spans(s@, i as int, k)[j
                    - out@.len()],
        invariant
            i <= s@.len(),
            all == word_spans(s@, 0, k),
            forall|j: int| 0 <= j < out@.len() ==> (#[trigger] out@[j]).0 <= out@[j].1 <= s@.len(),
            forall|j: int|
                0 <= j < out@.len() ==> (#[trigger] out@[j]).0 == all[j].0 && out@[j].1 == all[j].1,
        ensures
            out@.len() == all.len(),
        decreases s@.len() - i,
    {
        let a = find_out(s, i, k);
        if a >= s.len() {
            break ;
        }
        let b = find_in(s, a, k);
        proof {
            lemma_scan_out(s@, i as int, k);
            lemma_scan_in(s@, a as int, k);
            let rest = word_spans(s@, i as int, k);
            let tail = word_spans(s@, b as int, k);
            assert(rest =~= seq![(a as int, b as int)] + tail);
            let n = out@.len() as int;
            assert(all[n] == rest[0]);
            assert forall|j: int| n + 1 <= j < all.len() implies #[trigger] all[j] == tail[j - (n
                + 1)] by {
                assert(all[j] == rest[j - n]);
            }
        }
        out.push((a, b));
        i = b;
    }
    out
}

/// Cuts the spans out of `s`.
fn cut_out<'a>(s: &'a [char], p: &Vec<(usize, usize)>, Ghost(q): Ghost<Seq<Span>>) -> (r: Vec<
    &'a [char],
>)
    requires
        p@.len() == q.len(),
        forall|i: int| 0 <= i < p@.len() ==> (#[trigger] p@[i]).0 == q[i].0 && p@[i].1 == q[i].1,
        forall|i: int| 0 <= i < p@.len() ==> (#[trigger] p@[i]).0 <= p@[i].1 <= s@.len(),
    ensures
        views(r@) == cut(s@, q),
{
    let mut out: Vec<&'a [char]> = Vec::new();
    let mut i: usize = 0;
    while i < p.len()
        invariant
            i <= p@.len(),
            out@.len() == i,
            p@.len() == q.len(),
            forall|i: int|
                0 <= i < p@.len() ==> (#[trigger] p@[i]).0 == q[i].0 && p@[i].1 == q[i].1,
            forall|i: int| 0 <= i < p@.len() ==> (#[trigger] p@[i]).0 <= p@[i].1 <= s@.len(),
            forall|j: int| 0 <= j < i ==> #[trigger] out@[j]@ == s@.subrange(q[j].0, q[j].1),
        decreases p@.len() - i,
    {
        let w = p[i];
        out.push(slice_subrange(s, w.0, w.1));
        i += 1;
    }
    assert(views(out@) =~= cut(s@, q));
    out
}

/// The words of `s`, between white space.
pub fn split_words(s: &[char]) -> (r: Vec<&[char]>)
    ensures
        views(r@) == words(s@),
{
    let p = spans_of_words(s, Class::Blank);
    cut_out(s, &p, Ghost(word_spans(s@, 0, Class::Blank)))
}

/// The words of `s`, between ASCII white space.
pub fn split_ascii_words(s: &[char]) -> (r: Vec<&[char]>)
    ensures
        views(r@) == ascii_words(s@),
{
    let p = spans_of_words(s, Class::AsciiBlank);
    cut_out(s, &p, Ghost(word_spans(s@, 0, Class::AsciiBlank)))
}

/// The lines of `s`.
pub fn split_lines(s: &[char]) -> (r: Vec<&[char]>)
    ensures
        views(r@) == lines(s@),
{
    let mut out: Vec<&[char]> = Vec::new();
    let ghost all = line_spans(s@, 0);
    let mut i: usize = 0;
    while i < s.len()
        invariant
            i <= s@.len(),
            all == line_spans(s@, 0),
            all.len() == out@.len() + line_spans(s@, i as int).len(),
            forall|j: int|
                0 <= j < out@.len() ==> #[trigger] out@[j]@ == s@.subrange(all[j].0, all[j].1),
            forall|j: int|
                out@.len() <= j < all.len() ==> #[trigger] all[j] == line_spans(s@, i as int)[j
                    - out@.len()],
        decreases s@.len() - i,
    {
        let e = find_in(s, i, Class::Only('\n'));
        let ghost rest = line_spans(s@, i as int);
        let ghost n = out@.len() as int;
        let b = if e < s.len() && e > i && s[e - 1] == '\r' {
            e - 1
        } else {
            e
        };
        proof {
            assert(all[n] == rest[0]);
            if e < s@.len() {
                let tail = line_spans(s@, e + 1);
                assert(rest =~= seq![(i as int, b as int)] + tail);
                assert forall|j: int| n + 1 <= j < all.len() implies #[trigger] all[j] == tail[j - (
                n + 1)] by {
                    assert(all[j] == rest[j - n]);
                }
            } else {
                assert(line_spans(s@, e as int) =~= Seq::empty());
            }
        }
        out.push(slice_subrange(s, i, b));
        i = if e < s.len() {
            e + 1
        } else {
            e
        };
    }
    assert(views(out@) =~= cut(s@, all));
    out
}

/// The fields of `s`, between separators `c`.
pub fn split_fields(s: &[char], c: char) -> (r: Vec<&[char]>)
    ensures
        views(r@) == fields(s@, c),
        r@.len() >= 1,
{
    let mut out: Vec<&[char]> = Vec::new();
    let ghost all = field_spans(s@, 0, c);
    let mut i: usize = 0;
    loop
        invariant_except_break
            i <= s@.len(),
            all == field_spans(s@, 0, c),
            all.len() == out@.len() + field_spans(s@, i as int, c).len(),
            forall|j: int|
                0 <= j < out@.len() ==> #[trigger] out@[j]@ == s@.subrange(all[j].0, all[j].1),
            forall|j: int|
                out@.len() <= j < all.len() ==> #[trigger] all[j] == field_spans(s@, i as int, c)[j
                    - out@.len()],
        ensures
            all == field_spans(s@, 0, c),
            views(out@) == cut(s@, all),
            out@.len() >= 1,
        decreases s@.len() - i,
    {
        let e = find_in(s, i, Class::Only(c));
        let ghost rest = field_spans(s@, i as int, c);
        let ghost n = out@.len() as int;
        assert(all[n] == rest[0]);
        out.push(slice_subrange(s, i, e));
        if e >= s.len() {
            assert(views(out@) =~= cut(s@, all));
            break ;
        }
        proof {
            let tail = field_spans(s@, e + 1, c);
            assert(rest =~= seq![(i as int, e as int)] + tail);
            assert forall|j: int| n + 1 <= j < all.len() implies #[trigger] all[j] == tail[j - (n
                + 1)] by {
                assert(all[j] == rest[j - n]);
            }
        }
        i = e + 1;
    }
    out
}

// ---------------------------------------------------------------------------
// Order
// ---------------------------------------------------------------------------

/// Whether `a` comes before `b` in the order of the dictionary.
pub open spec fn before(a: Seq<char>, b: Seq<char>) -> bool
    decreases a.len(),
{
    if b.len() == 0 {
        false
    } else if a.len() == 0 {
        true
    } else if a[0] != b[0] {
        a[0] < b[0]
    } else {
        before(a.skip(1), b.skip(1))
    }
}

/// No text comes before itself, and of two texts that differ exactly one comes
/// before the other.
pub proof fn lemma_before_is_total(a: Seq<char>, b: Seq<char>)
    ensures
        a == b ==> !before(a, b) && !before(b, a),
        a != b ==> (before(a, b) <==> !before(b, a)),
    decreases a.len(),
{
    if a.len() > 0 && b.len() > 0 && a[0] == b[0] {
        lemma_before_is_total(a.skip(1), b.skip(1));
        if a.skip(1) == b.skip(1) {
            assert(a =~= seq![a[0]] + a.skip(1));
            assert(b =~= seq![b[0]] + b.skip(1));
        }
    } else if a.len() == 0 && b.len() == 0 {
        assert(a =~= b);
    }
}

/// What comes before a text that comes before a third comes before the third.
pub proof fn lemma_before_is_transitive(a: Seq<char>, b: Seq<char>, c: Seq<char>)
    requires
        before(a, b),
        before(b, c),
    ensures
        before(a, c),
    decreases a.len(),
{
    if a.len() > 0 && b.len() > 0 && c.len() > 0 && a[0] == b[0] && b[0] == c[0] {
        lemma_before_is_transitive(a.skip(1), b.skip(1), c.skip(1));
    }
}

/// Whether `a` comes before `b` in the order of the dictionary.
pub fn comes_before(a: &[char], b: &[char]) -> (r: bool)
    ensures
        r == before(a@, b@),
{
    let mut i: usize = 0;
    assert(a@.skip(0) =~= a@);
    assert(b@.skip(0) =~= b@);
    while i < a.len() && i < b.len() && a[i] == b[i]
        invariant
            i <= a@.len(),
            i <= b@.len(),
            before(a@.skip(i as int), b@.skip(i as int)) == before(a@, b@),
        decreases a@.len() - i,
    {
        assert(a@.skip(i as int).skip(1) =~= a@.skip(i + 1));
        assert(b@.skip(i as int).skip(1) =~= b@.skip(i + 1));
        i += 1;
    }
    if i >= b.len() {
        false
    } else if i >= a.len() {
        true
    } else {
        a[i] < b[i]
    }
}

/// Below 128 the blanks are the tab, what follows it up to the carriage return,
/// and the space. The ASCII blanks are these without the vertical tab.
pub proof fn law_ascii_blanks(c: char)
    ensures
        (c as int) < 128 ==> (is_blank(c) <==> c == ' ' || 9 <= c as int <= 13),
        is_ascii_blank(c) <==> (c == ' ' || 9 <= c as int <= 13) && c as int != 11,
        is_ascii_blank(c) ==> is_blank(c),
        is_digit(c) ==> !is_blank(c),
{
}

/// Trimming takes the blanks off both ends and leaves what stands between.
pub proof fn law_trim_leaves_what_stands_between(a: Seq<char>, s: Seq<char>, b: Seq<char>)
    requires
        forall|i: int| 0 <= i < a.len() ==> is_blank(#[trigger] a[i]),
        forall|i: int| 0 <= i < b.len() ==> is_blank(#[trigger] b[i]),
        s.len() > 0 ==> !is_blank(s[0]) && !is_blank(s.last()),
    ensures
        trim(a + s + b) == s,
{
    let t = a + s + b;
    let n = a.len() as int;
    let e = n + s.len();
    if s.len() == 0 {
        assert forall|i: int| 0 <= i < t.len() implies Class::Blank.has(#[trigger] t[i]) by {
            if i < n {
                assert(t[i] == a[i]);
            } else {
                assert(t[i] == b[i - n]);
            }
        }
        lemma_scan_out_is(t, 0, Class::Blank, t.len() as int);
        assert(trim(t) =~= s);
    } else {
        assert forall|i: int| 0 <= i < n implies Class::Blank.has(#[trigger] t[i]) by {
            assert(t[i] == a[i]);
        }
        assert(t[n] == s[0]);
        lemma_scan_out_is(t, 0, Class::Blank, n);
        assert(t[e - 1] == s.last());
        assert forall|i: int| e <= i < t.len() implies Class::Blank.has(#[trigger] t[i]) by {
            assert(t[i] == b[i - e]);
        }
        lemma_scan_back_is(t, t.len() as int, Class::Blank, e);
        assert(t.subrange(n, e) =~= s);
    }
}

/// A backward scan over characters of `k` stops behind the last that is not in
/// `k`.
proof fn lemma_scan_back_is(s: Seq<char>, j: int, k: Class, e: int)
    requires
        0 < e <= j <= s.len(),
        forall|i: int| e <= i < j ==> k.has(#[trigger] s[i]),
        !k.has(s[e - 1]),
    ensures
        scan_back(s, j, k) == e,
    decreases j,
{
    if e < j {
        assert(k.has(s[j - 1]));
        lemma_scan_back_is(s, j - 1, k, e);
    }
}

/// Words go by what follows alone.
proof fn lemma_words_skip(s: Seq<char>, i: int, j: int, k: Class)
    requires
        0 <= i,
        0 <= j,
        i + j <= s.len(),
    ensures
        word_spans(s.skip(i), j, k).len() == word_spans(s, i + j, k).len(),
        forall|m: int|
            0 <= m < word_spans(s, i + j, k).len() ==> (#[trigger] word_spans(s.skip(i), j, k)[m]).0
                + i == word_spans(s, i + j, k)[m].0 && word_spans(s.skip(i), j, k)[m].1 + i
                == word_spans(s, i + j, k)[m].1,
    decreases s.len() - i - j,
{
    lemma_scan_out(s, i + j, k);
    lemma_scan_out_skip(s, i, j, k);
    let a = scan_out(s, i + j, k);
    lemma_scan_in(s, a, k);
    lemma_scan_in_skip(s, i, a - i, k);
    let b = scan_in(s, a, k);
    if a < s.len() && b > i + j {
        lemma_words_skip(s, i, b - i, k);
    }
}

/// The first word of a text, and then the words of the rest.
proof fn lemma_words_first(a: Seq<char>, w: Seq<char>, b: Seq<char>, k: Class)
    requires
        forall|i: int| 0 <= i < a.len() ==> k.has(#[trigger] a[i]),
        w.len() > 0,
        forall|i: int| 0 <= i < w.len() ==> !k.has(#[trigger] w[i]),
        b.len() > 0 ==> k.has(b[0]),
    ensures
        cut(a + w + b, word_spans(a + w + b, 0, k)) == seq![w] + cut(b, word_spans(b, 0, k)),
        b.len() == 0 ==> cut(b, word_spans(b, 0, k)) == Seq::<Seq<char>>::empty(),
{
    let s = a + w + b;
    let n = a.len() as int;
    let e = n + w.len();
    assert forall|i: int| 0 <= i < n implies k.has(#[trigger] s[i]) by {
        assert(s[i] == a[i]);
    }
    assert forall|i: int| n <= i < e implies !k.has(#[trigger] s[i]) by {
        assert(s[i] == w[i - n]);
    }
    if b.len() > 0 {
        assert(s[e] == b[0]);
    } else {
        assert(word_spans(b, 0, k) =~= Seq::empty());
        assert(cut(b, word_spans(b, 0, k)) =~= Seq::empty());
    }
    lemma_scan_out_is(s, 0, k, n);
    lemma_scan_in_is(s, n, k, e);
    lemma_words_skip(s, e, 0, k);
    assert(s.skip(e) =~= b);
    lemma_word_spans(b, 0, k);
    let rest = word_spans(s, e, k);
    let all = word_spans(s, 0, k);
    assert(all =~= seq![(n, e)] + rest);
    let want = seq![w] + cut(b, word_spans(b, 0, k));
    assert forall|m: int| 0 <= m < all.len() implies #[trigger] cut(s, all)[m] == want[m] by {
        if m == 0 {
            assert(s.subrange(n, e) =~= w);
        } else {
            let p = word_spans(b, 0, k)[m - 1];
            assert(all[m] == rest[m - 1]);
            assert(rest[m - 1].0 == p.0 + e && rest[m - 1].1 == p.1 + e);
            assert(s.subrange(p.0 + e, p.1 + e) =~= b.subrange(p.0, p.1));
        }
    }
    assert(cut(s, all) =~= want);
}

/// A word is what stands between blanks: behind blanks, and up to the next
/// blank or the end. The words of the rest follow it.
pub proof fn law_words_stand_between_blanks(a: Seq<char>, w: Seq<char>, b: Seq<char>)
    requires
        w.len() > 0,
    ensures
        (forall|i: int| 0 <= i < a.len() ==> is_blank(#[trigger] a[i])) && (forall|i: int|
            0 <= i < w.len() ==> !is_blank(#[trigger] w[i])) && (b.len() > 0 ==> is_blank(b[0]))
            ==> words(a + w + b) == seq![w] + words(b),
        (forall|i: int| 0 <= i < a.len() ==> is_ascii_blank(#[trigger] a[i])) && (forall|i: int|
            0 <= i < w.len() ==> !is_ascii_blank(#[trigger] w[i])) && (b.len() > 0
            ==> is_ascii_blank(b[0])) ==> ascii_words(a + w + b) == seq![w] + ascii_words(b),
{
    if (forall|i: int| 0 <= i < a.len() ==> is_blank(#[trigger] a[i])) && (forall|i: int|
        0 <= i < w.len() ==> !is_blank(#[trigger] w[i])) && (b.len() > 0 ==> is_blank(b[0])) {
        assert forall|i: int| 0 <= i < a.len() implies Class::Blank.has(#[trigger] a[i]) by {}
        assert forall|i: int| 0 <= i < w.len() implies !Class::Blank.has(#[trigger] w[i]) by {}
        lemma_words_first(a, w, b, Class::Blank);
    }
    if (forall|i: int| 0 <= i < a.len() ==> is_ascii_blank(#[trigger] a[i])) && (forall|i: int|
        0 <= i < w.len() ==> !is_ascii_blank(#[trigger] w[i])) && (b.len() > 0 ==> is_ascii_blank(
        b[0],
    )) {
        assert forall|i: int| 0 <= i < a.len() implies Class::AsciiBlank.has(#[trigger] a[i]) by {}
        assert forall|i: int| 0 <= i < w.len() implies !Class::AsciiBlank.has(#[trigger] w[i]) by {}
        lemma_words_first(a, w, b, Class::AsciiBlank);
    }
}

/// Where there are only blanks, there is no word.
pub proof fn law_blanks_hold_no_word(s: Seq<char>)
    ensures
        (forall|i: int| 0 <= i < s.len() ==> is_blank(#[trigger] s[i])) ==> words(s).len() == 0,
        (forall|i: int| 0 <= i < s.len() ==> is_ascii_blank(#[trigger] s[i])) ==> ascii_words(
            s,
        ).len() == 0,
{
    if forall|i: int| 0 <= i < s.len() ==> is_blank(#[trigger] s[i]) {
        assert forall|i: int| 0 <= i < s.len() implies Class::Blank.has(#[trigger] s[i]) by {}
        lemma_scan_out_is(s, 0, Class::Blank, s.len() as int);
    }
    if forall|i: int| 0 <= i < s.len() ==> is_ascii_blank(#[trigger] s[i]) {
        assert forall|i: int| 0 <= i < s.len() implies Class::AsciiBlank.has(#[trigger] s[i]) by {}
        lemma_scan_out_is(s, 0, Class::AsciiBlank, s.len() as int);
    }
}

/// A text without a line feed is one line, or none where it is empty.
pub proof fn law_last_line_needs_no_end(s: Seq<char>)
    requires
        forall|i: int| 0 <= i < s.len() ==> #[trigger] s[i] != '\n',
    ensures
        s.len() > 0 ==> lines(s) == seq![s],
        s.len() == 0 ==> lines(s).len() == 0,
{
    if s.len() > 0 {
        assert forall|i: int| 0 <= i < s.len() implies !Class::Only('\n').has(#[trigger] s[i]) by {}
        lemma_scan_in_is(s, 0, Class::Only('\n'), s.len() as int);
        assert(s.subrange(0, s.len() as int) =~= s);
        assert(lines(s) =~= seq![s]);
    }
}

/// The first character in which two texts differ decides which comes first; of
/// two texts without one, the shorter.
pub proof fn law_first_difference_decides(p: Seq<char>, a: Seq<char>, b: Seq<char>)
    requires
        a.len() > 0 && b.len() > 0 ==> a[0] != b[0],
    ensures
        a.len() > 0 && b.len() > 0 ==> (before(p + a, p + b) <==> a[0] < b[0]),
        a.len() == 0 && b.len() > 0 ==> before(p + a, p + b),
        b.len() == 0 ==> !before(p + a, p + b),
    decreases p.len(),
{
    if p.len() == 0 {
        assert(p + a =~= a);
        assert(p + b =~= b);
    } else {
        assert((p + a).skip(1) =~= p.skip(1) + a);
        assert((p + b).skip(1) =~= p.skip(1) + b);
        law_first_difference_decides(p.skip(1), a, b);
    }
}

/// A text starts with what stands in front in it, ends with what stands behind,
/// and holds what stands anywhere in it; nothing else.
pub proof fn law_parts_of_a_text(a: Seq<char>, t: Seq<char>, b: Seq<char>, s: Seq<char>)
    ensures
        starts(t + b, t),
        ends(a + t, t),
        has_text(a + t + b, t),
        starts(s, t) ==> s == t + s.skip(t.len() as int),
        ends(s, t) ==> s == s.take(s.len() - t.len()) + t,
        has_text(s, t) ==> exists|i: int|
            0 <= i <= s.len() - t.len() && #[trigger] s.subrange(i, i + t.len()) == t,
{
    assert((t + b).take(t.len() as int) =~= t);
    assert((a + t).skip((a + t).len() - t.len()) =~= t);
    let n = a.len() as int;
    assert((a + t + b).subrange(n, n + t.len()) =~= t);
    assert(occurs_at(a + t + b, t, n));
    if starts(s, t) {
        assert(s =~= s.take(t.len() as int) + s.skip(t.len() as int));
    }
    if ends(s, t) {
        assert(s =~= s.take(s.len() - t.len()) + s.skip(s.len() - t.len()));
    }
    if has_text(s, t) {
        let i = choose|i: int| occurs_at(s, t, i);
        assert(s.subrange(i, i + t.len()) == t);
    }
}

} // verus!
