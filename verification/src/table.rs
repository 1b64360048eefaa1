//! A table from names to readings, in the order in which the names came.
use crate::metric::Metric;
use crate::text;
use vstd::prelude::*;

verus! {

/// What a table holds: names and readings.
pub type Rows = Seq<(Seq<char>, Metric)>;

/// Whether no name stands twice.
pub open spec fn distinct(rows: Rows) -> bool {
    forall|i: int, j: int| 0 <= i < j < rows.len() ==> #[trigger] rows[i].0 != #[trigger] rows[j].0
}

/// The first place at or after `i` where the name stands; the end of the rows
/// where there is none.
pub open spec fn place(rows: Rows, name: Seq<char>, i: int) -> int
    decreases rows.len() - i,
{
    if 0 <= i < rows.len() && rows[i].0 != name {
        place(rows, name, i + 1)
    } else {
        i
    }
}

/// The reading of a name.
pub open spec fn get(rows: Rows, name: Seq<char>) -> Option<Metric> {
    let p = place(rows, name, 0);
    if p < rows.len() {
        Some(rows[p].1)
    } else {
        None
    }
}

/// The rows once the name has this reading: in its place where the name is
/// there, at the end where it is new.
pub open spec fn put(rows: Rows, name: Seq<char>, value: Metric) -> Rows {
    let p = place(rows, name, 0);
    if p < rows.len() {
        rows.update(p, (name, value))
    } else {
        rows.push((name, value))
    }
}

/// Where the place of a name is.
pub proof fn lemma_place(rows: Rows, name: Seq<char>, i: int)
    requires
        0 <= i <= rows.len(),
    ensures
        i <= place(rows, name, i) <= rows.len(),
        forall|j: int| i <= j < place(rows, name, i) ==> (#[trigger] rows[j]).0 != name,
        place(rows, name, i) < rows.len() ==> rows[place(rows, name, i)].0 == name,
    decreases rows.len() - i,
{
    if i < rows.len() && rows[i].0 != name {
        lemma_place(rows, name, i + 1);
    }
}

proof fn lemma_place_is(rows: Rows, name: Seq<char>, i: int, p: int)
    requires
        0 <= i <= p <= rows.len(),
        forall|j: int| i <= j < p ==> (#[trigger] rows[j]).0 != name,
        p < rows.len() ==> rows[p].0 == name,
    ensures
        place(rows, name, i) == p,
    decreases p - i,
{
    if i < p {
        assert(rows[i].0 != name);
        lemma_place_is(rows, name, i + 1, p);
    }
}

/// A name has the reading that was put last; every other name keeps its own.
pub proof fn law_put_then_get(rows: Rows, name: Seq<char>, value: Metric, other: Seq<char>)
    ensures
        get(put(rows, name, value), other) == (if other == name {
            Some(value)
        } else {
            get(rows, other)
        }),
{
    let after = put(rows, name, value);
    let p = place(rows, name, 0);
    lemma_place(rows, name, 0);
    lemma_place(rows, other, 0);
    let q = place(rows, other, 0);
    if other == name {
        assert forall|j: int| 0 <= j < p implies (#[trigger] after[j]).0 != name by {
            assert(rows[j].0 != name);
        }
        lemma_place_is(after, name, 0, p);
    } else {
        assert forall|j: int| 0 <= j < q implies (#[trigger] after[j]).0 != other by {
            if j < rows.len() {
                assert(rows[j].0 != other);
            }
        }
        if q < rows.len() {
            lemma_place_is(after, other, 0, q);
        } else {
            assert forall|j: int| 0 <= j < after.len() implies (#[trigger] after[j]).0 != other by {
                if j < rows.len() {
                    assert(rows[j].0 != other);
                }
            }
            lemma_place_is(after, other, 0, after.len() as int);
        }
    }
}

/// No name stands twice after a put where none stood twice before.
pub proof fn law_put_keeps_distinct(rows: Rows, name: Seq<char>, value: Metric)
    requires
        distinct(rows),
    ensures
        distinct(put(rows, name, value)),
{
    lemma_place(rows, name, 0);
    let after = put(rows, name, value);
    let p = place(rows, name, 0);
    assert forall|i: int, j: int| 0 <= i < j < after.len() implies #[trigger] after[i].0
        != #[trigger] after[j].0 by {
        if j < rows.len() {
            assert(rows[i].0 != rows[j].0);
        } else {
            assert(rows[i].0 != name);
        }
    }
}

/// A name that is not there yet is put at the end.
pub proof fn lemma_put_new(rows: Rows, name: Seq<char>, value: Metric)
    requires
        forall|j: int| 0 <= j < rows.len() ==> (#[trigger] rows[j]).0 != name,
    ensures
        put(rows, name, value) == rows.push((name, value)),
{
    lemma_place_is(rows, name, 0, rows.len() as int);
}

/// Readings by name.
#[derive(Debug)]
pub struct Table {
    rows: Vec<(String, Metric)>,
}

/// The views of the rows.
spec fn rows_of(v: Seq<(String, Metric)>) -> Rows {
    Seq::new(v.len(), |i: int| (v[i].0@, v[i].1))
}

impl View for Table {
    type V = Rows;

    closed spec fn view(&self) -> Rows {
        rows_of(self.rows@)
    }
}

impl Clone for Table {
    fn clone(&self) -> (r: Self)
        ensures
            r@ == self@,
    {
        proof {
            use_type_invariant(self);
        }
        let mut rows: Vec<(String, Metric)> = Vec::new();
        let mut i: usize = 0;
        while i < self.rows.len()
            invariant
                i <= self.rows@.len(),
                rows_of(rows@) == self@.take(i as int),
            decreases self.rows@.len() - i,
        {
            let ghost before = rows@;
            rows.push((self.rows[i].0.as_str().to_owned(), self.rows[i].1));
            i += 1;
            assert(rows_of(rows@) =~= rows_of(before).push(self@[i - 1]));
            assert(rows_of(rows@) =~= self@.take(i as int));
        }
        assert(self@.take(self@.len() as int) =~= self@);
        Table { rows }
    }
}

impl Table {
    #[verifier::type_invariant]
    spec fn well_formed(self) -> bool {
        distinct(rows_of(self.rows@))
    }

    /// A table without rows.
    pub fn new() -> (r: Self)
        ensures
            r@ == Rows::empty(),
    {
        let r = Table { rows: Vec::new() };
        assert(r@ =~= Rows::empty());
        r
    }

    /// How many rows there are. No name stands in two of them.
    pub fn len(&self) -> (r: usize)
        ensures
            r == self@.len(),
            distinct(self@),
    {
        proof {
            use_type_invariant(self);
        }
        self.rows.len()
    }

    /// The name in row `i`.
    pub fn name(&self, i: usize) -> (r: &str)
        requires
            i < self@.len(),
        ensures
            r@ == self@[i as int].0,
    {
        self.rows[i].0.as_str()
    }

    /// The reading in row `i`.
    pub fn value(&self, i: usize) -> (r: Metric)
        requires
            i < self@.len(),
        ensures
            r == self@[i as int].1,
    {
        self.rows[i].1
    }

    /// The place of the name, or the number of rows.
    fn find(&self, name: &str) -> (r: usize)
        ensures
            r == place(self@, name@, 0),
            r <= self@.len(),
    {
        let mut i: usize = 0;
        while i < self.rows.len() && !text::same_str(self.rows[i].0.as_str(), name)
            invariant
                i <= self.rows@.len(),
                place(self@, name@, 0) == place(self@, name@, i as int),
            decreases self.rows@.len() - i,
        {
            assert(self@[i as int].0 == self.rows@[i as int].0@);
            i += 1;
        }
        i
    }

    /// The reading of a name.
    pub fn get(&self, name: &str) -> (r: Option<Metric>)
        ensures
            r == get(self@, name@),
    {
        let p = self.find(name);
        if p < self.rows.len() {
            Some(self.rows[p].1)
        } else {
            None
        }
    }

    /// Gives a name this reading.
    pub fn put(&mut self, name: &str, value: Metric)
        ensures
            final(self)@ == put(old(self)@, name@, value),
            distinct(final(self)@),
    {
        proof {
            use_type_invariant(&*self);
            law_put_keeps_distinct(self@, name@, value);
        }
        let p = self.find(name);
        let ghost before = self@;
        let mut rows: Vec<(String, Metric)> = Vec::new();
        std::mem::swap(&mut rows, &mut self.rows);
        let ghost start = rows@;
        if p < rows.len() {
            rows.set(p, (name.to_owned(), value));
        } else {
            rows.push((name.to_owned(), value));
        }
        assert(rows_of(start) == before);
        assert(rows_of(rows@) =~= put(before, name@, value));
        self.rows = rows;
    }
}

/// A name has the reading of the row in which it first stands, and none where it
/// does not stand.
pub proof fn law_reading_is_that_of_the_row(rows: Rows, name: Seq<char>, i: int)
    requires
        0 <= i <= rows.len(),
        forall|j: int| 0 <= j < i ==> (#[trigger] rows[j]).0 != name,
        i < rows.len() ==> rows[i].0 == name,
    ensures
        i < rows.len() ==> get(rows, name) == Some(rows[i].1),
        i == rows.len() ==> get(rows, name) is None,
{
    lemma_place_is(rows, name, 0, i);
}

/// A name that is there keeps its place, and all other rows stay as they are; a
/// new name comes behind the others.
pub proof fn law_put_changes_one_row(rows: Rows, name: Seq<char>, value: Metric, i: int)
    requires
        0 <= i <= rows.len(),
        forall|j: int| 0 <= j < i ==> (#[trigger] rows[j]).0 != name,
        i < rows.len() ==> rows[i].0 == name,
    ensures
        i < rows.len() ==> put(rows, name, value) == rows.update(i, (name, value)),
        i == rows.len() ==> put(rows, name, value) == rows.push((name, value)),
{
    lemma_place_is(rows, name, 0, i);
}

} // verus!
