//! The header mapping: an ordered-insertion map from header names to the
//! sequences of values received under them.

use vstd::prelude::*;

verus! {

/// The mathematical model of a header mapping: the names in arrival order,
/// each with its values in arrival order.
pub type HeadersModel = Seq<(Seq<char>, Seq<Seq<char>>)>;

/// The value sequence recorded under `name`, or `None` when the name never
/// arrived.
pub open spec fn spec_lookup(m: HeadersModel, name: Seq<char>) -> Option<Seq<Seq<char>>>
    decreases m.len(),
{
    if m.len() == 0 {
        None
    } else if m[0].0 == name {
        Some(m[0].1)
    } else {
        spec_lookup(m.skip(1), name)
    }
}

/// The mapping after one more header line `name: value` arrives: the value is
/// appended to the name's sequence, or the name is added at the end with that
/// one value.
pub open spec fn spec_append(m: HeadersModel, name: Seq<char>, value: Seq<char>) -> HeadersModel
    decreases m.len(),
{
    if m.len() == 0 {
        seq![(name, seq![value])]
    } else if m[0].0 == name {
        seq![(m[0].0, m[0].1.push(value))] + m.skip(1)
    } else {
        seq![m[0]] + spec_append(m.skip(1), name, value)
    }
}

/// When `name` first occurs at position `i`, looking it up yields exactly the
/// values stored there.
pub proof fn lemma_lookup_at(m: HeadersModel, name: Seq<char>, i: int)
    requires
        0 <= i < m.len(),
        m[i].0 == name,
        forall|k: int| 0 <= k < i ==> m[k].0 != name,
    ensures
        spec_lookup(m, name) == Some(m[i].1),
    decreases i,
{
    if i == 0 {
    } else {
        assert forall|k: int| 0 <= k < i - 1 implies m.skip(1)[k].0 != name by {
            assert(m.skip(1)[k] == m[k + 1]);
        }
        assert(m.skip(1)[i - 1] == m[i]);
        lemma_lookup_at(m.skip(1), name, i - 1);
    }
}

/// When `name` occurs nowhere, looking it up yields nothing.
pub proof fn lemma_lookup_none(m: HeadersModel, name: Seq<char>)
    requires
        forall|k: int| 0 <= k < m.len() ==> m[k].0 != name,
    ensures
        spec_lookup(m, name) is None,
    decreases m.len(),
{
    if m.len() > 0 {
        assert forall|k: int| 0 <= k < m.skip(1).len() implies m.skip(1)[k].0 != name by {
            assert(m.skip(1)[k] == m[k + 1]);
        }
        lemma_lookup_none(m.skip(1), name);
    }
}

/// When `name` first occurs at position `i`, appending a value to it updates
/// exactly that entry, in place.
pub proof fn lemma_append_at(m: HeadersModel, name: Seq<char>, value: Seq<char>, i: int)
    requires
        0 <= i < m.len(),
        m[i].0 == name,
        forall|k: int| 0 <= k < i ==> m[k].0 != name,
    ensures
        spec_append(m, name, value) == m.update(i, (m[i].0, m[i].1.push(value))),
    decreases i,
{
    if i == 0 {
        assert(seq![(m[0].0, m[0].1.push(value))] + m.skip(1) =~= m.update(
            0,
            (m[0].0, m[0].1.push(value)),
        ));
    } else {
        assert forall|k: int| 0 <= k < i - 1 implies m.skip(1)[k].0 != name by {
            assert(m.skip(1)[k] == m[k + 1]);
        }
        assert(m.skip(1)[i - 1] == m[i]);
        lemma_append_at(m.skip(1), name, value, i - 1);
        assert(seq![m[0]] + m.skip(1).update(i - 1, (m[i].0, m[i].1.push(value))) =~= m.update(
            i,
            (m[i].0, m[i].1.push(value)),
        ));
    }
}

/// When `name` occurs nowhere, appending a value to it adds a new entry at
/// the end.
pub proof fn lemma_append_new(m: HeadersModel, name: Seq<char>, value: Seq<char>)
    requires
        forall|k: int| 0 <= k < m.len() ==> m[k].0 != name,
    ensures
        spec_append(m, name, value) == m.push((name, seq![value])),
    decreases m.len(),
{
    if m.len() == 0 {
        assert(spec_append(m, name, value) =~= m.push((name, seq![value])));
    } else {
        assert forall|k: int| 0 <= k < m.skip(1).len() implies m.skip(1)[k].0 != name by {
            assert(m.skip(1)[k] == m[k + 1]);
        }
        lemma_append_new(m.skip(1), name, value);
        assert(seq![m[0]] + m.skip(1).push((name, seq![value])) =~= m.push((name, seq![value])));
    }
}

/// Appending a value under a name extends exactly that name's sequence: a
/// first value starts the sequence, a later one goes at its end.
pub proof fn lemma_append_lookup(m: HeadersModel, name: Seq<char>, value: Seq<char>)
    ensures
        spec_lookup(spec_append(m, name, value), name) == match spec_lookup(m, name) {
            Some(vs) => Some(vs.push(value)),
            None => Some(seq![value]),
        },
    decreases m.len(),
{
    if m.len() == 0 {
        let a = spec_append(m, name, value);
        assert(a[0] == (name, seq![value]));
    } else if m[0].0 == name {
        let a = seq![(m[0].0, m[0].1.push(value))] + m.skip(1);
        assert(a[0] == (m[0].0, m[0].1.push(value)));
    } else {
        lemma_append_lookup(m.skip(1), name, value);
        let a = seq![m[0]] + spec_append(m.skip(1), name, value);
        assert(a[0] == m[0]);
        assert(a.skip(1) =~= spec_append(m.skip(1), name, value));
    }
}

/// Law: two header lines carrying the same name — here a name not seen before
/// them — leave under that name exactly the two values, in arrival order.
pub proof fn lemma_duplicate_name_order(
    m: HeadersModel,
    name: Seq<char>,
    v1: Seq<char>,
    v2: Seq<char>,
)
    requires
        spec_lookup(m, name) is None,
    ensures
        spec_lookup(spec_append(spec_append(m, name, v1), name, v2), name) == Some(seq![v1, v2]),
{
    lemma_append_lookup(m, name, v1);
    lemma_append_lookup(spec_append(m, name, v1), name, v2);
    assert(seq![v1].push(v2) =~= seq![v1, v2]);
}

/// The ordered-insertion header mapping. Names are matched exactly as
/// received; a repeated name appends to its value sequence.
#[derive(Debug)]
pub struct Headers {
    entries: Vec<(String, Vec<String>)>,
}

impl View for Headers {
    type V = HeadersModel;

    closed spec fn view(&self) -> HeadersModel {
        self.entries@.map_values(|e: (String, Vec<String>)| (e.0@, e.1.deep_view()))
    }
}

impl Headers {
    /// Names are unique, and every recorded name holds at least one value.
    pub open spec fn wf(&self) -> bool {
        &&& forall|i: int, j: int| 0 <= i < j < self@.len() ==> self@[i].0 != self@[j].0
        &&& forall|i: int| 0 <= i < self@.len() ==> self@[i].1.len() > 0
    }

    /// An empty mapping.
    pub fn new() -> (r: Headers)
        ensures
            r.wf(),
            r@ == Seq::<(Seq<char>, Seq<Seq<char>>)>::empty(),
    {
        let r = Headers { entries: Vec::new() };
        proof {
            assert(r@ =~= Seq::<(Seq<char>, Seq<Seq<char>>)>::empty());
        }
        r
    }

    /// How many distinct names have arrived.
    pub fn len(&self) -> (r: usize)
        ensures
            r == self@.len(),
    {
        self.entries.len()
    }

    /// Record one more header line `name: value`.
    pub fn append_value(&mut self, name: String, value: String)
        requires
            old(self).wf(),
        ensures
            final(self).wf(),
            final(self)@ == spec_append(old(self)@, name@, value@),
    {
        let n = self.entries.len();
        let mut i: usize = 0;
        while i < n
            invariant
                self == old(self),
                self.wf(),
                n == self.entries@.len(),
                0 <= i <= n,
                forall|k: int| 0 <= k < i ==> self@[k].0 != name@,
            decreases n - i,
        {
            let hit = {
                let e = &self.entries[i];
                e.0 == name
            };
            if hit {
                let ghost target = old(self)@.update(
                    i as int,
                    (old(self)@[i as int].0, old(self)@[i as int].1.push(value@)),
                );
                let (nm, mut vals) = self.entries.remove(i);
                vals.push(value);
                self.entries.insert(i, (nm, vals));
                proof {
                    lemma_append_at(old(self)@, name@, value@, i as int);
                    assert forall|j: int| 0 <= j < self@.len() implies self@[j] == target[j] by {
                        if j < i {
                            assert(self.entries@[j] == old(self).entries@[j]);
                        } else if j == i {
                            assert(self.entries@[j] == (nm, vals));
                        } else {
                            assert(self.entries@[j] == old(self).entries@[j]);
                        }
                    }
                    assert(self@ =~= target);
                    assert forall|p: int, q: int|
                        0 <= p < q < self@.len() implies self@[p].0 != self@[q].0 by {
                        assert(self@[p].0 == old(self)@[p].0);
                        assert(self@[q].0 == old(self)@[q].0);
                    }
                    assert forall|p: int| 0 <= p < self@.len() implies self@[p].1.len() > 0 by {
                        if p != i {
                            assert(self@[p] == old(self)@[p]);
                        }
                    }
                }
                return ;
            }
            i = i + 1;
        }
        let mut vals: Vec<String> = Vec::new();
        vals.push(value);
        self.entries.push((name, vals));
        proof {
            lemma_append_new(old(self)@, name@, value@);
            assert(vals.deep_view() =~= seq![value@]);
            assert(self@ =~= old(self)@.push((name@, seq![value@])));
        }
    }

    /// The values received under `name`, in arrival order, or `None` when the
    /// name never arrived.
    pub fn get(&self, name: &String) -> (r: Option<&Vec<String>>)
        ensures
            match r {
                Some(vals) => spec_lookup(self@, name@) == Some(vals.deep_view()),
                None => spec_lookup(self@, name@) is None,
            },
    {
        let n = self.entries.len();
        let mut i: usize = 0;
        while i < n
            invariant
                n == self.entries@.len(),
                0 <= i <= n,
                forall|k: int| 0 <= k < i ==> self@[k].0 != name@,
            decreases n - i,
        {
            let e = &self.entries[i];
            if e.0 == *name {
                proof {
                    lemma_lookup_at(self@, name@, i as int);
                }
                return Some(&self.entries[i].1);
            }
            i = i + 1;
        }
        proof {
            lemma_lookup_none(self@, name@);
        }
        None
    }

    /// The name of the `i`-th entry, in arrival order.
    pub fn name_at(&self, i: usize) -> (r: &String)
        requires
            i < self@.len(),
        ensures
            r@ == self@[i as int].0,
    {
        &self.entries[i].0
    }

    /// The values of the `i`-th entry, in arrival order.
    pub fn values_at(&self, i: usize) -> (r: &Vec<String>)
        requires
            i < self@.len(),
        ensures
            r.deep_view() == self@[i as int].1,
    {
        &self.entries[i].1
    }
}

} // verus!
