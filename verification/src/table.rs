//! An insertion-ordered table from keys to values, each key at most once.

use vstd::prelude::*;

verus! {

/// A type whose values can be told apart by their views.
pub trait Key: View + Sized {
    /// Whether the two keys have the same view.
    fn same_key(&self, other: &Self) -> (r: bool)
        ensures
            r == (self@ == other@),
    ;
}

impl Key for String {
    fn same_key(&self, other: &Self) -> (r: bool) {
        *self == *other
    }
}

/// The views of a sequence's elements.
pub open spec fn views<T: View>(s: Seq<T>) -> Seq<T::V> {
    Seq::new(s.len(), |i: int| s[i]@)
}

pub proof fn lemma_views_push<T: View>(s: Seq<T>, x: T)
    ensures
        views(s.push(x)) == views(s).push(x@),
{
    assert(views(s.push(x)) =~= views(s).push(x@));
}

/// The rows hold a row for `k`.
pub open spec fn holds<A, B>(rows: Seq<(A, B)>, k: A) -> bool {
    exists|i: int| 0 <= i < rows.len() && (#[trigger] rows[i]).0 == k
}

/// Where the row for `k` stands.
pub open spec fn slot<A, B>(rows: Seq<(A, B)>, k: A) -> int {
    choose|i: int| 0 <= i < rows.len() && (#[trigger] rows[i]).0 == k
}

/// The value of the row for `k`.
pub open spec fn value_at<A, B>(rows: Seq<(A, B)>, k: A) -> B {
    rows[slot(rows, k)].1
}

/// The rows after `v` was stored under `k`: in place, or at the end.
pub open spec fn stored<A, B>(rows: Seq<(A, B)>, k: A, v: B) -> Seq<(A, B)> {
    if holds(rows, k) {
        rows.update(slot(rows, k), (k, v))
    } else {
        rows.push((k, v))
    }
}

/// No key has two rows.
pub open spec fn distinct<A, B>(rows: Seq<(A, B)>) -> bool {
    forall|i: int, j: int|
        0 <= i < j < rows.len() ==> (#[trigger] rows[i]).0 != (#[trigger] rows[j]).0
}

/// A row found is the row.
pub proof fn lemma_slot<A, B>(rows: Seq<(A, B)>, k: A, i: int)
    requires
        distinct(rows),
        0 <= i < rows.len(),
        rows[i].0 == k,
    ensures
        holds(rows, k),
        slot(rows, k) == i,
        value_at(rows, k) == rows[i].1,
{
    let j = slot(rows, k);
    assert(0 <= j < rows.len() && rows[j].0 == k);
    if j < i {
        assert(rows[j].0 != rows[i].0);
    } else if i < j {
        assert(rows[i].0 != rows[j].0);
    }
}

/// Storing keeps the keys apart; the stored value is found; other rows stay.
pub proof fn lemma_stored<A, B>(rows: Seq<(A, B)>, k: A, v: B)
    requires
        distinct(rows),
    ensures
        distinct(stored(rows, k, v)),
        holds(stored(rows, k, v), k),
        value_at(stored(rows, k, v), k) == v,
        forall|q: A| #[trigger]
            holds(stored(rows, k, v), q) <==> holds(rows, q) || q == k,
        forall|q: A|
            q != k && holds(rows, q) ==> #[trigger] value_at(stored(rows, k, v), q) == value_at(
                rows,
                q,
            ),
{
    let after = stored(rows, k, v);
    let at = if holds(rows, k) {
        slot(rows, k)
    } else {
        rows.len() as int
    };
    assert(distinct(after));
    assert(after[at] == (k, v));
    lemma_slot(after, k, at);
    assert forall|q: A| #[trigger] holds(after, q) <==> holds(rows, q) || q == k by {
        if holds(after, q) && q != k {
            let j = slot(after, q);
            assert(rows[j].0 == q);
        }
        if holds(rows, q) && q != k {
            let j = slot(rows, q);
            assert(after[j].0 == q);
        }
    }
    assert forall|q: A| q != k && holds(rows, q) implies #[trigger] value_at(after, q) == value_at(
        rows,
        q,
    ) by {
        let j = slot(rows, q);
        assert(after[j] == rows[j]);
        lemma_slot(after, q, j);
    }
}

/// A table from keys to values.
#[derive(Debug)]
pub struct Table<K, V> {
    rows: Vec<(K, V)>,
}

impl<K: View, V: View> View for Table<K, V> {
    type V = Seq<(K::V, V::V)>;

    closed spec fn view(&self) -> Seq<(K::V, V::V)> {
        Seq::new(self.rows@.len(), |i: int| (self.rows@[i].0@, self.rows@[i].1@))
    }
}

impl<K: Key, V: View> Table<K, V> {
    /// No key has two rows.
    pub open spec fn wf(&self) -> bool {
        distinct(self@)
    }

    /// The value in row `i`.
    pub closed spec fn row_value(&self, i: int) -> V {
        self.rows@[i].1
    }

    /// A table without rows.
    pub fn new() -> (r: Self)
        ensures
            r@ == Seq::<(K::V, V::V)>::empty(),
            r.wf(),
    {
        let r = Table { rows: Vec::new() };
        assert(r@ =~= Seq::<(K::V, V::V)>::empty());
        r
    }

    /// The number of rows.
    pub fn len(&self) -> (r: usize)
        ensures
            r == self@.len(),
    {
        self.rows.len()
    }

    /// The row of `key`, if there is one.
    pub fn find(&self, key: &K) -> (r: Option<usize>)
        requires
            self.wf(),
        ensures
            match r {
                Some(i) => {
                    &&& i < self@.len()
                    &&& self@[i as int].0 == key@
                    &&& holds(self@, key@)
                    &&& slot(self@, key@) == i
                },
                None => !holds(self@, key@),
            },
    {
        let mut i: usize = 0;
        while i < self.rows.len()
            invariant
                i <= self.rows@.len(),
                self@.len() == self.rows@.len(),
                self.wf(),
                forall|j: int| 0 <= j < i ==> (#[trigger] self@[j]).0 != key@,
            decreases self.rows@.len() - i,
        {
            if self.rows[i].0.same_key(key) {
                proof {
                    lemma_slot(self@, key@, i as int);
                }
                return Some(i);
            }
            i += 1;
        }
        None
    }

    /// The value in row `i`.
    pub fn at(&self, i: usize) -> (r: &V)
        requires
            i < self@.len(),
        ensures
            r@ == self@[i as int].1,
            *r == self.row_value(i as int),
    {
        &self.rows[i].1
    }

    /// The key of row `i`.
    pub fn key_at(&self, i: usize) -> (r: &K)
        requires
            i < self@.len(),
        ensures
            r@ == self@[i as int].0,
    {
        &self.rows[i].0
    }

    /// The value in row `i`, to be changed in place.
    pub fn at_mut(&mut self, i: usize) -> (r: &mut V)
        requires
            i < old(self)@.len(),
        ensures
            *r == old(self).row_value(i as int),
            (*r)@ == old(self)@[i as int].1,
            final(self)@ == old(self)@.update(
                i as int,
                (old(self)@[i as int].0, (*final(r))@),
            ),
    {
        &mut self.rows[i].1
    }

    /// The value stored under `key`, if any.
    pub fn get(&self, key: &K) -> (r: Option<&V>)
        requires
            self.wf(),
        ensures
            match r {
                Some(v) => holds(self@, key@) && v@ == value_at(self@, key@),
                None => !holds(self@, key@),
            },
    {
        match self.find(key) {
            Some(i) => Some(&self.rows[i].1),
            None => None,
        }
    }

    /// The value stored under `key`, to be changed in place; `fresh` is
    /// stored first where there is none.
    pub fn slot_mut(&mut self, key: K, fresh: V) -> (r: &mut V)
        requires
            old(self).wf(),
        ensures
            (*r)@ == if holds(old(self)@, key@) {
                value_at(old(self)@, key@)
            } else {
                fresh@
            },
            final(self)@ == stored(old(self)@, key@, (*final(r))@),
    {
        match self.find(&key) {
            Some(i) => self.at_mut(i),
            None => {
                let i: usize = self.rows.len();
                self.rows.push((key, fresh));
                &mut self.rows[i].1
            },
        }
    }

    /// Store `value` under `key`, in place of any value it had.
    pub fn put(&mut self, key: K, value: V)
        requires
            old(self).wf(),
        ensures
            final(self)@ == stored(old(self)@, key@, value@),
            final(self).wf(),
    {
        proof {
            lemma_stored(self@, key@, value@);
        }
        match self.find(&key) {
            Some(i) => {
                self.rows[i] = (key, value);
                assert(self@ =~= old(self)@.update(i as int, (key@, value@)));
            },
            None => {
                self.rows.push((key, value));
                assert(self@ =~= old(self)@.push((key@, value@)));
            },
        }
    }
}

} // verus!
