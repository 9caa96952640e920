//! A table of values by name, kept in the byte order of the names.

use vstd::prelude::*;
use vstd::utf8::*;

use crate::strings;

verus! {

/// One name precedes another.
pub open spec fn precedes(a: Seq<char>, b: Seq<char>) -> bool {
    strings::bytes_less(encode_utf8(a), encode_utf8(b))
}

/// Rows in strictly ascending order of their names: no name occurs twice.
pub open spec fn ordered<V>(rows: Seq<(Seq<char>, V)>) -> bool {
    forall|i: int, j: int|
        0 <= i < j < rows.len() ==> precedes((#[trigger] rows[i]).0, (#[trigger] rows[j]).0)
}

/// The value under a name.
pub open spec fn lookup<V>(rows: Seq<(Seq<char>, V)>, name: Seq<char>) -> Option<V>
    decreases rows.len(),
{
    if rows.len() == 0 {
        None
    } else if rows.last().0 == name {
        Some(rows.last().1)
    } else {
        lookup(rows.drop_last(), name)
    }
}

/// The rows with a value put under a name.
pub open spec fn put<V>(
    rows: Seq<(Seq<char>, V)>,
    name: Seq<char>,
    value: V,
) -> Seq<(Seq<char>, V)>
    decreases rows.len(),
{
    if rows.len() == 0 {
        seq![(name, value)]
    } else if rows.last().0 == name {
        rows.drop_last().push((name, value))
    } else if precedes(rows.last().0, name) {
        rows.push((name, value))
    } else {
        put(rows.drop_last(), name, value).push(rows.last())
    }
}

/// The rows without the one under a name.
pub open spec fn erase<V>(rows: Seq<(Seq<char>, V)>, name: Seq<char>) -> Seq<(Seq<char>, V)>
    decreases rows.len(),
{
    if rows.len() == 0 {
        seq![]
    } else if rows.last().0 == name {
        rows.drop_last()
    } else {
        erase(rows.drop_last(), name).push(rows.last())
    }
}

/// A table of values by name.
#[derive(Debug)]
pub struct Table<V> {
    names: Vec<String>,
    values: Vec<V>,
}

impl<V> View for Table<V> {
    type V = Seq<(Seq<char>, V)>;

    closed spec fn view(&self) -> Seq<(Seq<char>, V)> {
        Seq::new(self.names@.len(), |i: int| (self.names@[i]@, self.values@[i]))
    }
}

/// The order of names is strict.
pub proof fn lemma_precedes_strict(a: Seq<char>, b: Seq<char>)
    ensures
        !(precedes(a, b) && precedes(b, a)),
        !precedes(a, a),
        a != b ==> precedes(a, b) || precedes(b, a),
{
    strings::lemma_bytes_less_total(encode_utf8(a), encode_utf8(b));
    strings::lemma_bytes_less_total(encode_utf8(a), encode_utf8(a));
    strings::lemma_encode_injective(a, b);
}

/// The order of names is transitive.
pub proof fn lemma_precedes_trans(a: Seq<char>, b: Seq<char>, c: Seq<char>)
    requires
        precedes(a, b),
        precedes(b, c),
    ensures
        precedes(a, c),
{
    strings::lemma_bytes_less_trans(encode_utf8(a), encode_utf8(b), encode_utf8(c));
}

/// The prefix of ordered rows is ordered.
pub proof fn lemma_ordered_prefix<V>(rows: Seq<(Seq<char>, V)>)
    requires
        ordered(rows),
        rows.len() > 0,
    ensures
        ordered(rows.drop_last()),
{
    assert forall|i: int, j: int| 0 <= i < j < rows.len() - 1 implies precedes(
        (#[trigger] rows.drop_last()[i]).0,
        (#[trigger] rows.drop_last()[j]).0,
    ) by {
        assert(precedes(rows[i].0, rows[j].0));
    }
}

/// In ordered rows the value under a name is the one in its row.
pub proof fn lemma_lookup_at<V>(rows: Seq<(Seq<char>, V)>, i: int)
    requires
        ordered(rows),
        0 <= i < rows.len(),
    ensures
        lookup(rows, rows[i].0) == Some(rows[i].1),
    decreases rows.len(),
{
    if i < rows.len() - 1 {
        assert(precedes(rows[i].0, rows[rows.len() - 1].0));
        lemma_precedes_strict(rows[i].0, rows[rows.len() - 1].0);
        lemma_ordered_prefix(rows);
        lemma_lookup_at(rows.drop_last(), i);
        assert(rows.drop_last()[i] == rows[i]);
    }
}

/// A name that no row has leads to nothing.
pub proof fn lemma_lookup_none<V>(rows: Seq<(Seq<char>, V)>, name: Seq<char>)
    ensures
        lookup(rows, name) is None <==> forall|i: int|
            0 <= i < rows.len() ==> (#[trigger] rows[i]).0 != name,
    decreases rows.len(),
{
    if rows.len() > 0 {
        lemma_lookup_none(rows.drop_last(), name);
        let init = rows.drop_last();
        if lookup(rows, name) is None {
            assert forall|i: int| 0 <= i < rows.len() implies (#[trigger] rows[i]).0 != name by {
                if i < rows.len() - 1 {
                    assert(init[i].0 == rows[i].0);
                }
            }
        }
        if forall|i: int| 0 <= i < rows.len() ==> (#[trigger] rows[i]).0 != name {
            assert forall|i: int| 0 <= i < init.len() implies (#[trigger] init[i]).0 != name by {
                assert(rows[i].0 == init[i].0);
            }
            assert(rows[rows.len() - 1].0 != name);
        }
    }
}

/// Putting a value at the place that its name belongs to.
proof fn lemma_put_at<V>(rows: Seq<(Seq<char>, V)>, name: Seq<char>, value: V, at: int)
    requires
        ordered(rows),
        0 <= at <= rows.len(),
        forall|i: int| 0 <= i < at ==> precedes((#[trigger] rows[i]).0, name),
        forall|i: int| at <= i < rows.len() ==> precedes(name, (#[trigger] rows[i]).0),
    ensures
        put(rows, name, value) == rows.insert(at, (name, value)),
        ordered(put(rows, name, value)),
    decreases rows.len(),
{
    if rows.len() == 0 {
        assert(rows.insert(at, (name, value)) =~= seq![(name, value)]);
    } else if at == rows.len() {
        lemma_precedes_strict(rows[rows.len() - 1].0, name);
        assert(rows.insert(at, (name, value)) =~= rows.push((name, value)));
    } else {
        let init = rows.drop_last();
        lemma_precedes_strict(name, rows[rows.len() - 1].0);
        lemma_ordered_prefix(rows);
        assert forall|i: int| 0 <= i < at implies precedes((#[trigger] init[i]).0, name) by {
            assert(init[i] == rows[i]);
        }
        assert forall|i: int| at <= i < init.len() implies precedes(
            name,
            (#[trigger] init[i]).0,
        ) by {
            assert(init[i] == rows[i]);
        }
        lemma_put_at(init, name, value, at);
        assert(init.insert(at, (name, value)).push(rows.last()) =~= rows.insert(
            at,
            (name, value),
        ));
    }
    let out = rows.insert(at, (name, value));
    assert forall|i: int, j: int| 0 <= i < j < out.len() implies precedes(
        (#[trigger] out[i]).0,
        (#[trigger] out[j]).0,
    ) by {
        let i2 = if i < at {
            i
        } else {
            i - 1
        };
        let j2 = if j < at {
            j
        } else {
            j - 1
        };
        if i != at && j != at {
            assert(out[i] == rows[i2] && out[j] == rows[j2]);
        } else if i == at {
            assert(out[j] == rows[j2]);
        } else {
            assert(out[i] == rows[i2]);
        }
    }
}

/// Putting a value under a name that has a row.
proof fn lemma_put_over<V>(rows: Seq<(Seq<char>, V)>, value: V, at: int)
    requires
        ordered(rows),
        0 <= at < rows.len(),
    ensures
        put(rows, rows[at].0, value) == rows.update(at, (rows[at].0, value)),
        ordered(put(rows, rows[at].0, value)),
    decreases rows.len(),
{
    let name = rows[at].0;
    if at == rows.len() - 1 {
        assert(rows.update(at, (name, value)) =~= rows.drop_last().push((name, value)));
    } else {
        let init = rows.drop_last();
        assert(precedes(name, rows[rows.len() - 1].0));
        lemma_precedes_strict(name, rows[rows.len() - 1].0);
        lemma_ordered_prefix(rows);
        assert(init[at] == rows[at]);
        lemma_put_over(init, value, at);
        assert(init.update(at, (name, value)).push(rows.last()) =~= rows.update(
            at,
            (name, value),
        ));
    }
    let out = rows.update(at, (name, value));
    assert forall|i: int, j: int| 0 <= i < j < out.len() implies precedes(
        (#[trigger] out[i]).0,
        (#[trigger] out[j]).0,
    ) by {
        assert(out[i].0 == rows[i].0 && out[j].0 == rows[j].0);
    }
}

/// Erasing the row that a name has.
proof fn lemma_erase_at<V>(rows: Seq<(Seq<char>, V)>, at: int)
    requires
        ordered(rows),
        0 <= at < rows.len(),
    ensures
        erase(rows, rows[at].0) == rows.remove(at),
        ordered(rows.remove(at)),
    decreases rows.len(),
{
    let name = rows[at].0;
    if at == rows.len() - 1 {
        assert(rows.remove(at) =~= rows.drop_last());
    } else {
        let init = rows.drop_last();
        assert(precedes(name, rows[rows.len() - 1].0));
        lemma_precedes_strict(name, rows[rows.len() - 1].0);
        lemma_ordered_prefix(rows);
        assert(init[at] == rows[at]);
        lemma_erase_at(init, at);
        assert(init.remove(at).push(rows.last()) =~= rows.remove(at));
    }
    let out = rows.remove(at);
    assert forall|i: int, j: int| 0 <= i < j < out.len() implies precedes(
        (#[trigger] out[i]).0,
        (#[trigger] out[j]).0,
    ) by {
        let i2 = if i < at {
            i
        } else {
            i + 1
        };
        let j2 = if j < at {
            j
        } else {
            j + 1
        };
        assert(out[i] == rows[i2] && out[j] == rows[j2]);
    }
}

/// Erasing a name that no row has changes nothing.
proof fn lemma_erase_none<V>(rows: Seq<(Seq<char>, V)>, name: Seq<char>)
    requires
        lookup(rows, name) is None,
    ensures
        erase(rows, name) == rows,
    decreases rows.len(),
{
    if rows.len() > 0 {
        lemma_erase_none(rows.drop_last(), name);
        assert(rows.drop_last().push(rows.last()) =~= rows);
    } else {
        assert(rows =~= seq![]);
    }
}

/// Putting in what is there already changes nothing.
pub proof fn lemma_put_same<V>(rows: Seq<(Seq<char>, V)>, name: Seq<char>, value: V)
    requires
        ordered(rows),
        lookup(rows, name) == Some(value),
    ensures
        put(rows, name, value) == rows,
    decreases rows.len(),
{
    if rows.last().0 == name {
        assert(rows.drop_last().push((name, value)) =~= rows);
    } else {
        let init = rows.drop_last();
        lemma_lookup_none(init, name);
        let j = choose|j: int| 0 <= j < init.len() && (#[trigger] init[j]).0 == name;
        assert(rows[j] == init[j]);
        assert(precedes(rows[j].0, rows[rows.len() - 1].0));
        lemma_precedes_strict(name, rows.last().0);
        lemma_ordered_prefix(rows);
        lemma_put_same(init, name, value);
        assert(init.push(rows.last()) =~= rows);
    }
}

/// What a table gives back of what was put into it.
pub proof fn put_then_lookup<V>(
    rows: Seq<(Seq<char>, V)>,
    name: Seq<char>,
    value: V,
    other: Seq<char>,
)
    requires
        ordered(rows),
    ensures
        ordered(put(rows, name, value)),
        lookup(put(rows, name, value), name) == Some(value),
        other != name ==> lookup(put(rows, name, value), other) == lookup(rows, other),
    decreases rows.len(),
{
    lemma_put_is_insert_or_update(rows, name, value);
    if rows.len() > 0 {
        let last = rows[rows.len() - 1].0;
        lemma_precedes_strict(last, name);
        if last != name && !precedes(last, name) {
            lemma_ordered_prefix(rows);
            put_then_lookup(rows.drop_last(), name, value, other);
            let p = put(rows.drop_last(), name, value);
            assert(p.push(rows.last()).drop_last() =~= p);
        } else if last == name {
            assert(rows.drop_last().push((name, value)).drop_last() =~= rows.drop_last());
        } else {
            assert(rows.push((name, value)).drop_last() =~= rows);
        }
    } else {
        assert(seq![(name, value)].drop_last() =~= rows);
    }
}

/// Where a name belongs among ordered rows.
proof fn lemma_put_is_insert_or_update<V>(rows: Seq<(Seq<char>, V)>, name: Seq<char>, value: V)
    requires
        ordered(rows),
    ensures
        ordered(put(rows, name, value)),
    decreases rows.len(),
{
    if lookup(rows, name) is Some {
        lemma_lookup_none(rows, name);
        let at = choose|i: int| 0 <= i < rows.len() && (#[trigger] rows[i]).0 == name;
        lemma_put_over(rows, value, at);
    } else {
        lemma_lookup_none(rows, name);
        let at = lemma_rank(rows, name);
        lemma_put_at(rows, name, value, at);
    }
}

/// The place of a name that no row has.
proof fn lemma_rank<V>(rows: Seq<(Seq<char>, V)>, name: Seq<char>) -> (at: int)
    requires
        ordered(rows),
        forall|i: int| 0 <= i < rows.len() ==> (#[trigger] rows[i]).0 != name,
    ensures
        0 <= at <= rows.len(),
        forall|i: int| 0 <= i < at ==> precedes((#[trigger] rows[i]).0, name),
        forall|i: int| at <= i < rows.len() ==> precedes(name, (#[trigger] rows[i]).0),
    decreases rows.len(),
{
    if rows.len() == 0 {
        0
    } else {
        let last = rows.len() - 1;
        lemma_precedes_strict(rows[last].0, name);
        if precedes(rows[last].0, name) {
            assert forall|i: int| 0 <= i < rows.len() implies precedes(
                (#[trigger] rows[i]).0,
                name,
            ) by {
                if i < last {
                    lemma_precedes_trans(rows[i].0, rows[last].0, name);
                }
            }
            rows.len() as int
        } else {
            let init = rows.drop_last();
            lemma_ordered_prefix(rows);
            assert forall|i: int| 0 <= i < init.len() implies (#[trigger] init[i]).0 != name by {
                assert(init[i] == rows[i]);
            }
            let at = lemma_rank(init, name);
            assert forall|i: int| 0 <= i < at implies precedes((#[trigger] rows[i]).0, name) by {
                assert(init[i] == rows[i]);
            }
            assert forall|i: int| at <= i < rows.len() implies precedes(
                name,
                (#[trigger] rows[i]).0,
            ) by {
                if i < last {
                    assert(init[i] == rows[i]);
                }
            }
            at
        }
    }
}

/// What a table gives back after an erasure.
pub proof fn erase_then_lookup<V>(rows: Seq<(Seq<char>, V)>, name: Seq<char>, other: Seq<char>)
    requires
        ordered(rows),
    ensures
        ordered(erase(rows, name)),
        lookup(erase(rows, name), name) is None,
        other != name ==> lookup(erase(rows, name), other) == lookup(rows, other),
    decreases rows.len(),
{
    lemma_lookup_none(rows, name);
    if lookup(rows, name) is None {
        lemma_erase_none(rows, name);
    } else {
        let at = choose|i: int| 0 <= i < rows.len() && (#[trigger] rows[i]).0 == name;
        lemma_erase_at(rows, at);
        let out = rows.remove(at);
        lemma_lookup_none(out, name);
        assert forall|i: int| 0 <= i < out.len() implies (#[trigger] out[i]).0 != name by {
            let i2 = if i < at {
                i
            } else {
                i + 1
            };
            assert(out[i] == rows[i2]);
            if i2 < at {
                assert(precedes(rows[i2].0, rows[at].0));
            } else {
                assert(precedes(rows[at].0, rows[i2].0));
            }
            lemma_precedes_strict(rows[i2].0, rows[at].0);
            lemma_precedes_strict(rows[at].0, rows[i2].0);
        }
        if other != name {
            lemma_lookup_none(rows, other);
            lemma_lookup_none(out, other);
            if lookup(rows, other) is Some {
                let k = choose|i: int| 0 <= i < rows.len() && (#[trigger] rows[i]).0 == other;
                let k2 = if k < at {
                    k
                } else {
                    k - 1
                };
                assert(out[k2] == rows[k]);
                lemma_lookup_at(rows, k);
                lemma_lookup_at(out, k2);
            } else if lookup(out, other) is Some {
                let k = choose|i: int| 0 <= i < out.len() && (#[trigger] out[i]).0 == other;
                let k2 = if k < at {
                    k
                } else {
                    k + 1
                };
                assert(out[k] == rows[k2]);
            }
        }
    }
}

impl<V> Table<V> {
    /// The rows are in order.
    pub closed spec fn wf(&self) -> bool {
        self.names@.len() == self.values@.len() && ordered(self@)
    }

    /// The rows are in order, whoever asks.
    pub proof fn lemma_ordered(&self)
        requires
            self.wf(),
        ensures
            ordered(self@),
    {
    }

    /// An empty table.
    pub fn new() -> (r: Self)
        ensures
            r.wf(),
            r@ == Seq::<(Seq<char>, V)>::empty(),
    {
        let r = Table { names: Vec::new(), values: Vec::new() };
        assert(r@ =~= Seq::<(Seq<char>, V)>::empty());
        r
    }

    /// How many rows there are.
    pub fn len(&self) -> (r: usize)
        ensures
            r == self@.len(),
    {
        self.names.len()
    }

    /// Where a name stands, or where it would.
    fn rank(&self, name: &str) -> (r: (usize, bool))
        requires
            self.wf(),
        ensures
            r.0 <= self@.len(),
            r.1 ==> r.0 < self@.len() && self@[r.0 as int].0 == name@,
            !r.1 ==> {
                &&& forall|i: int| 0 <= i < r.0 ==> precedes((#[trigger] self@[i]).0, name@)
                &&& forall|i: int|
                    r.0 <= i < self@.len() ==> precedes(name@, (#[trigger] self@[i]).0)
            },
    {
        let mut lo: usize = 0;
        let mut hi: usize = self.names.len();
        while lo < hi
            invariant
                self.wf(),
                lo <= hi <= self@.len(),
                forall|i: int| 0 <= i < lo ==> precedes((#[trigger] self@[i]).0, name@),
                forall|i: int| hi <= i < self@.len() ==> precedes(name@, (#[trigger] self@[i]).0),
            decreases hi - lo,
        {
            let mid = lo + (hi - lo) / 2;
            let here = self.names[mid].as_str();
            assert(self@[mid as int].0 == here@);
            if strings::str_less(here, name) {
                assert forall|i: int| 0 <= i < mid + 1 implies precedes(
                    (#[trigger] self@[i]).0,
                    name@,
                ) by {
                    if i < mid {
                        lemma_precedes_trans(self@[i].0, self@[mid as int].0, name@);
                    }
                }
                lo = mid + 1;
            } else if strings::str_less(name, here) {
                assert forall|i: int| mid <= i < self@.len() implies precedes(
                    name@,
                    (#[trigger] self@[i]).0,
                ) by {
                    if i > mid {
                        lemma_precedes_trans(name@, self@[mid as int].0, self@[i].0);
                    }
                }
                hi = mid;
            } else {
                proof {
                    lemma_precedes_strict(here@, name@);
                }
                return (mid, true);
            }
        }
        (lo, false)
    }

    /// The value under a name.
    pub fn get(&self, name: &str) -> (r: Option<&V>)
        requires
            self.wf(),
        ensures
            match r {
                Some(v) => lookup(self@, name@) == Some(*v),
                None => lookup(self@, name@) is None,
            },
    {
        let (i, found) = self.rank(name);
        if found {
            proof {
                lemma_lookup_at(self@, i as int);
            }
            Some(&self.values[i])
        } else {
            proof {
                lemma_absent(self@, name@, i as int);
            }
            None
        }
    }

    /// Puts a value under a name.
    pub fn insert(&mut self, name: &str, value: V)
        requires
            old(self).wf(),
        ensures
            final(self).wf(),
            final(self)@ == put(old(self)@, name@, value),
    {
        let (i, found) = self.rank(name);
        let ghost before = self@;
        if found {
            self.values[i] = value;
            proof {
                lemma_put_over(before, value, i as int);
                assert(self@ =~= before.update(i as int, (name@, value)));
            }
        } else {
            self.names.insert(i, name.to_owned());
            self.values.insert(i, value);
            proof {
                lemma_put_at(before, name@, value, i as int);
                assert(self@ =~= before.insert(i as int, (name@, value)));
            }
        }
    }

    /// Takes the value under a name out.
    pub fn remove(&mut self, name: &str) -> (r: Option<V>)
        requires
            old(self).wf(),
        ensures
            final(self).wf(),
            final(self)@ == erase(old(self)@, name@),
            r == lookup(old(self)@, name@),
    {
        let (i, found) = self.rank(name);
        let ghost before = self@;
        if found {
            let _name = self.names.remove(i);
            let v = self.values.remove(i);
            proof {
                lemma_lookup_at(before, i as int);
                lemma_erase_at(before, i as int);
                assert(self@ =~= before.remove(i as int));
            }
            Some(v)
        } else {
            proof {
                lemma_absent(before, name@, i as int);
                lemma_erase_none(before, name@);
            }
            None
        }
    }

    /// Empties the table.
    pub fn clear(&mut self)
        ensures
            final(self).wf(),
            final(self)@ == Seq::<(Seq<char>, V)>::empty(),
    {
        self.names = Vec::new();
        self.values = Vec::new();
        assert(self@ =~= Seq::<(Seq<char>, V)>::empty());
    }

    /// The name in a row.
    pub fn name_at(&self, i: usize) -> (r: &str)
        requires
            i < self@.len(),
        ensures
            r@ == self@[i as int].0,
    {
        self.names[i].as_str()
    }

    /// The value in a row.
    pub fn value_at(&self, i: usize) -> (r: &V)
        requires
            self.wf(),
            i < self@.len(),
        ensures
            *r == self@[i as int].1,
    {
        &self.values[i]
    }

    /// Changes the value in a row.
    pub fn set_value_at(&mut self, i: usize, value: V)
        requires
            old(self).wf(),
            i < old(self)@.len(),
        ensures
            final(self).wf(),
            final(self)@ == old(self)@.update(i as int, (old(self)@[i as int].0, value)),
    {
        let ghost before = self@;
        self.values[i] = value;
        proof {
            lemma_put_over(before, value, i as int);
            assert(self@ =~= before.update(i as int, (before[i as int].0, value)));
        }
    }

    /// Takes a row out.
    pub fn remove_at(&mut self, i: usize) -> (r: V)
        requires
            old(self).wf(),
            i < old(self)@.len(),
        ensures
            final(self).wf(),
            final(self)@ == old(self)@.remove(i as int),
            r == old(self)@[i as int].1,
    {
        let ghost before = self@;
        let _name = self.names.remove(i);
        let v = self.values.remove(i);
        proof {
            lemma_erase_at(before, i as int);
            assert(self@ =~= before.remove(i as int));
        }
        v
    }
}

/// A name between its neighbours has no row.
proof fn lemma_absent<V>(rows: Seq<(Seq<char>, V)>, name: Seq<char>, at: int)
    requires
        forall|i: int| 0 <= i < at ==> precedes((#[trigger] rows[i]).0, name),
        forall|i: int| at <= i < rows.len() ==> precedes(name, (#[trigger] rows[i]).0),
    ensures
        lookup(rows, name) is None,
{
    lemma_lookup_none(rows, name);
    assert forall|i: int| 0 <= i < rows.len() implies (#[trigger] rows[i]).0 != name by {
        lemma_precedes_strict(name, name);
        if i < at {
            assert(precedes(rows[i].0, name));
        } else {
            assert(precedes(name, rows[i].0));
        }
    }
}

} // verus!
