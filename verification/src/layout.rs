//! Putting text together: joining, padding, replacing.
use crate::text;
use vstd::prelude::*;

verus! {

/// `n` times the character `c`.
pub open spec fn repeated(c: char, n: int) -> Seq<char> {
    Seq::new(if n > 0 {
        n as nat
    } else {
        0
    }, |i: int| c)
}

/// `s` at the left edge of a field of `width` characters. A longer text is
/// left as it is.
pub open spec fn left(s: Seq<char>, width: int) -> Seq<char> {
    s + repeated(' ', width - s.len())
}

/// `s` at the right edge of a field of `width` characters. A longer text is
/// left as it is.
pub open spec fn right(s: Seq<char>, width: int) -> Seq<char> {
    repeated(' ', width - s.len()) + s
}

/// The parts one behind the other, with `sep` between them.
pub open spec fn joined(parts: Seq<Seq<char>>, sep: Seq<char>) -> Seq<char>
    decreases parts.len(),
{
    if parts.len() == 0 {
        Seq::empty()
    } else if parts.len() == 1 {
        parts[0]
    } else {
        joined(parts.drop_last(), sep) + sep + parts.last()
    }
}

/// `s` with `by` in place of every `c`.
pub open spec fn replaced(s: Seq<char>, c: char, by: Seq<char>) -> Seq<char>
    decreases s.len(),
{
    if s.len() == 0 {
        Seq::empty()
    } else {
        replaced(s.drop_last(), c, by) + if s.last() == c {
            by
        } else {
            seq![s.last()]
        }
    }
}

/// The views of a list of strings.
pub open spec fn texts(v: Seq<String>) -> Seq<Seq<char>> {
    Seq::new(v.len(), |i: int| v[i]@)
}

/// Appends `n` times the character `c`.
pub fn push_repeated(out: &mut String, c: char, n: usize)
    ensures
        final(out)@ == old(out)@ + repeated(c, n as int),
{
    let ghost start = out@;
    let mut i: usize = 0;
    assert(start =~= start + repeated(c, 0));
    while i < n
        invariant
            i <= n,
            out@ == start + repeated(c, i as int),
        decreases n - i,
    {
        out.push(c);
        i += 1;
        assert(start + repeated(c, i as int) =~= (start + repeated(c, i - 1)).push(c));
    }
}

/// Appends `s`, padded on the right to `width` characters.
pub fn push_left(out: &mut String, s: &[char], width: usize)
    ensures
        final(out)@ == old(out)@ + left(s@, width as int),
{
    let ghost start = out@;
    text::push_chars(out, s);
    let pad: usize = if s.len() < width {
        width - s.len()
    } else {
        0
    };
    push_repeated(out, ' ', pad);
    assert(repeated(' ', pad as int) =~= repeated(' ', width - s@.len()));
    assert(out@ =~= start + left(s@, width as int));
}

/// Appends `s`, padded on the left to `width` characters.
pub fn push_right(out: &mut String, s: &[char], width: usize)
    ensures
        final(out)@ == old(out)@ + right(s@, width as int),
{
    let ghost start = out@;
    let pad: usize = if s.len() < width {
        width - s.len()
    } else {
        0
    };
    push_repeated(out, ' ', pad);
    text::push_chars(out, s);
    assert(repeated(' ', pad as int) =~= repeated(' ', width - s@.len()));
    assert(out@ =~= start + right(s@, width as int));
}

/// The strings one behind the other, with `sep` between them.
pub fn join(parts: &Vec<String>, sep: &str) -> (r: String)
    ensures
        r@ == joined(texts(parts@), sep@),
{
    let mut out = String::new();
    let mut i: usize = 0;
    let ghost all = texts(parts@);
    while i < parts.len()
        invariant
            i <= parts@.len(),
            all == texts(parts@),
            out@ == joined(all.take(i as int), sep@),
        decreases parts@.len() - i,
    {
        assert(all.take(i + 1).drop_last() =~= all.take(i as int));
        if i > 0 {
            out.append(sep);
        }
        out.append(parts[i].as_str());
        assert(out@ =~= joined(all.take(i + 1), sep@));
        i += 1;
    }
    assert(all.take(i as int) =~= all);
    out
}

/// The character slices one behind the other, with `sep` between them.
pub fn join_slices(parts: &Vec<&[char]>, sep: char) -> (r: String)
    ensures
        r@ == joined(text::views(parts@), seq![sep]),
{
    let mut out = String::new();
    let mut i: usize = 0;
    let ghost all = text::views(parts@);
    while i < parts.len()
        invariant
            i <= parts@.len(),
            all == text::views(parts@),
            out@ == joined(all.take(i as int), seq![sep]),
        decreases parts@.len() - i,
    {
        assert(all.take(i + 1).drop_last() =~= all.take(i as int));
        if i > 0 {
            out.push(sep);
        }
        text::push_chars(&mut out, parts[i]);
        assert(out@ =~= joined(all.take(i + 1), seq![sep]));
        i += 1;
    }
    assert(all.take(i as int) =~= all);
    out
}

/// `s` with `by` in place of every `c`.
pub fn replace(s: &[char], c: char, by: &str) -> (r: String)
    ensures
        r@ == replaced(s@, c, by@),
{
    let mut out = String::new();
    let mut i: usize = 0;
    while i < s.len()
        invariant
            i <= s@.len(),
            out@ == replaced(s@.take(i as int), c, by@),
        decreases s@.len() - i,
    {
        assert(s@.take(i + 1).drop_last() =~= s@.take(i as int));
        if s[i] == c {
            out.append(by);
        } else {
            out.push(s[i]);
        }
        assert(out@ =~= replaced(s@.take(i + 1), c, by@));
        i += 1;
    }
    assert(s@.take(i as int) =~= s@);
    out
}

/// A field holds its text at its edge, blanks on the other side, and is as wide
/// as it should be, or as the text where that is wider.
pub proof fn law_fields_are_filled_with_blanks(s: Seq<char>, width: int)
    ensures
        s.len() <= width ==> left(s, width).len() == width && right(s, width).len() == width,
        s.len() >= width ==> left(s, width) == s && right(s, width) == s,
        left(s, width).take(s.len() as int) == s,
        right(s, width).skip(right(s, width).len() - s.len()) == s,
        forall|i: int| s.len() <= i < left(s, width).len() ==> #[trigger] left(s, width)[i] == ' ',
        forall|i: int|
            0 <= i < right(s, width).len() - s.len() ==> #[trigger] right(s, width)[i] == ' ',
{
    if s.len() >= width {
        assert(left(s, width) =~= s);
        assert(right(s, width) =~= s);
    }
    assert(left(s, width).take(s.len() as int) =~= s);
    assert(right(s, width).skip(right(s, width).len() - s.len()) =~= s);
}

/// Parts that were joined by a character that none of them holds come apart at
/// it again.
pub proof fn law_joined_parts_come_apart(parts: Seq<Seq<char>>, c: char)
    requires
        parts.len() > 0,
        forall|i: int, j: int|
            0 <= i < parts.len() && 0 <= j < parts[i].len() ==> #[trigger] parts[i][j] != c,
    ensures
        text::fields(joined(parts, seq![c]), c) == parts,
    decreases parts.len(),
{
    if parts.len() == 1 {
        assert forall|j: int| 0 <= j < parts[0].len() implies #[trigger] parts[0][j] != c by {}
        text::lemma_fields_one(parts[0], c);
        assert(seq![parts[0]] =~= parts);
    } else {
        let rest = parts.drop_first();
        assert forall|i: int, j: int|
            0 <= i < rest.len() && 0 <= j < rest[i].len() implies #[trigger] rest[i][j] != c by {
            assert(rest[i] == parts[i + 1]);
            assert(parts[i + 1][j] != c);
        }
        law_joined_parts_come_apart(rest, c);
        lemma_joined_first(parts, seq![c]);
        assert forall|j: int| 0 <= j < parts[0].len() implies #[trigger] parts[0][j] != c by {}
        text::lemma_fields_first(parts[0], joined(rest, seq![c]), c);
        assert(seq![parts[0]] + rest =~= parts);
    }
}

/// The first part stands in front, the separator behind it, and then the rest.
pub proof fn lemma_joined_first(parts: Seq<Seq<char>>, sep: Seq<char>)
    requires
        parts.len() >= 2,
    ensures
        joined(parts, sep) == parts[0] + sep + joined(parts.drop_first(), sep),
    decreases parts.len(),
{
    if parts.len() == 2 {
        assert(parts.drop_last().len() == 1 && parts.drop_last()[0] == parts[0]);
        assert(parts.drop_first().len() == 1 && parts.drop_first()[0] == parts[1]);
        assert(joined(parts.drop_last(), sep) == parts[0]);
        assert(joined(parts.drop_first(), sep) == parts[1]);
    } else {
        let front = parts.drop_last();
        lemma_joined_first(front, sep);
        assert(front.drop_first() =~= parts.drop_first().drop_last());
        assert(parts.drop_first().last() == parts.last());
        let mid = joined(front.drop_first(), sep);
        assert(joined(parts.drop_first(), sep) == mid + sep + parts.last());
        assert(joined(front, sep) == parts[0] + sep + mid);
        assert(parts[0] + sep + mid + sep + parts.last() =~= parts[0] + sep + (mid + sep
            + parts.last()));
    }
}

/// Replacing leaves a text alone that does not hold the character, puts the new
/// text in place of each one, and goes part by part.
pub proof fn law_replacing_goes_part_by_part(a: Seq<char>, b: Seq<char>, c: char, by: Seq<char>)
    ensures
        replaced(a + b, c, by) == replaced(a, c, by) + replaced(b, c, by),
        replaced(seq![c], c, by) == by,
        (forall|i: int| 0 <= i < a.len() ==> #[trigger] a[i] != c) ==> replaced(a, c, by) == a,
    decreases a.len() + b.len(),
{
    assert(seq![c].drop_last() =~= Seq::empty());
    assert(replaced(seq![c].drop_last(), c, by) =~= Seq::empty());
    assert(replaced(seq![c], c, by) =~= by);
    if b.len() > 0 {
        law_replacing_goes_part_by_part(a, b.drop_last(), c, by);
        assert((a + b).drop_last() =~= a + b.drop_last());
        assert((a + b).last() == b.last());
        let t = if b.last() == c {
            by
        } else {
            seq![b.last()]
        };
        assert(replaced(a, c, by) + replaced(b.drop_last(), c, by) + t =~= replaced(a, c, by) + (
        replaced(b.drop_last(), c, by) + t));
    } else {
        assert(a + b =~= a);
        assert(replaced(a, c, by) + replaced(b, c, by) =~= replaced(a, c, by));
    }
    if a.len() > 0 && (forall|i: int| 0 <= i < a.len() ==> #[trigger] a[i] != c) {
        let t = a.drop_last();
        assert forall|i: int| 0 <= i < t.len() implies #[trigger] t[i] != c by {
            assert(t[i] == a[i]);
        }
        law_replacing_goes_part_by_part(t, Seq::empty(), c, by);
        assert(a[a.len() - 1] != c);
        assert(t + seq![a.last()] =~= a);
    }
}

} // verus!
