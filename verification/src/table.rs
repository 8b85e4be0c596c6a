//! A table of values, each under a text of its own.

use vstd::prelude::*;

use crate::text::text_eq;

verus! {

/// Whether no name stands in `listing` twice.
pub open spec fn distinct<T>(listing: Seq<(Seq<char>, T)>) -> bool {
    forall|i: int, j: int|
        #![trigger listing[i], listing[j]]
        0 <= i < listing.len() && 0 <= j < listing.len() && listing[i].0 == listing[j].0 ==> i == j
}

/// Whether `name` stands at position `i`.
pub open spec fn named_at<T>(listing: Seq<(Seq<char>, T)>, name: Seq<char>, i: int) -> bool {
    0 <= i < listing.len() && listing[i].0 == name
}

/// What stands under each name of `listing`.
pub open spec fn as_map<T>(listing: Seq<(Seq<char>, T)>) -> Map<Seq<char>, T> {
    Map::new(
        |name: Seq<char>| exists|i: int| #[trigger] named_at(listing, name, i),
        |name: Seq<char>| listing[choose|i: int| #[trigger] named_at(listing, name, i)].1,
    )
}

/// `listing` with `value` under `name`: in the place of what stood there, or else
/// at the end.
pub open spec fn with_row<T>(listing: Seq<(Seq<char>, T)>, name: Seq<char>, value: T) -> Seq<
    (Seq<char>, T),
> {
    if exists|i: int| #[trigger] named_at(listing, name, i) {
        listing.update(choose|i: int| #[trigger] named_at(listing, name, i), (name, value))
    } else {
        listing.push((name, value))
    }
}

/// In a listing without repeated names, each row is what its name stands for.
pub proof fn lemma_row<T>(listing: Seq<(Seq<char>, T)>, i: int)
    requires
        distinct(listing),
        0 <= i < listing.len(),
    ensures
        as_map(listing).contains_key(listing[i].0),
        as_map(listing)[listing[i].0] == listing[i].1,
{
    let name = listing[i].0;
    assert(named_at(listing, name, i));
    let c = choose|k: int| #[trigger] named_at(listing, name, k);
    assert(named_at(listing, name, c));
    assert(listing[c].0 == listing[i].0);
}

proof fn lemma_update<T>(before: Seq<(Seq<char>, T)>, i: int, value: T)
    requires
        distinct(before),
        0 <= i < before.len(),
    ensures
        ({
            let after = before.update(i, (before[i].0, value));
            &&& distinct(after)
            &&& as_map(after) == as_map(before).insert(before[i].0, value)
            &&& after == with_row(before, before[i].0, value)
        }),
{
    let name = before[i].0;
    let after = before.update(i, (name, value));
    let goal = as_map(before).insert(name, value);
    assert(named_at(before, name, i));
    let c0 = choose|k: int| #[trigger] named_at(before, name, k);
    assert(before[c0].0 == before[i].0);
    assert(forall|j: int| 0 <= j < before.len() ==> (#[trigger] after[j]).0 == before[j].0);
    assert(distinct(after));
    assert forall|u: Seq<char>| #[trigger] as_map(after).contains_key(u) <==> goal.contains_key(
        u,
    ) by {
        if as_map(after).contains_key(u) {
            let c = choose|k: int| #[trigger] named_at(after, u, k);
            assert(named_at(before, u, c));
        }
        if as_map(before).contains_key(u) {
            let c = choose|k: int| #[trigger] named_at(before, u, k);
            assert(named_at(after, u, c));
        }
        if u == name {
            assert(named_at(after, u, i));
        }
    }
    assert forall|u: Seq<char>| #[trigger] as_map(after).contains_key(u) implies as_map(after)[u]
        == goal[u] by {
        let c = choose|k: int| #[trigger] named_at(after, u, k);
        lemma_row(after, c);
        lemma_row(before, c);
        if u == name {
            assert(before[c].0 == before[i].0);
        }
    }
    assert(as_map(after) =~= goal);
}

proof fn lemma_push<T>(before: Seq<(Seq<char>, T)>, name: Seq<char>, value: T)
    requires
        distinct(before),
        !as_map(before).contains_key(name),
    ensures
        distinct(before.push((name, value))),
        as_map(before.push((name, value))) == as_map(before).insert(name, value),
        before.push((name, value)) == with_row(before, name, value),
{
    let n = before.len() as int;
    let after = before.push((name, value));
    let goal = as_map(before).insert(name, value);
    assert forall|j: int| 0 <= j < n implies (#[trigger] before[j]).0 != name by {
        if before[j].0 == name {
            assert(named_at(before, name, j));
        }
    }
    assert(forall|j: int| 0 <= j < n ==> #[trigger] after[j] == before[j]);
    assert(distinct(after));
    assert forall|u: Seq<char>| #[trigger] as_map(after).contains_key(u) <==> goal.contains_key(
        u,
    ) by {
        if as_map(after).contains_key(u) {
            let c = choose|k: int| #[trigger] named_at(after, u, k);
            if c < n {
                assert(named_at(before, u, c));
            }
        }
        if as_map(before).contains_key(u) {
            let c = choose|k: int| #[trigger] named_at(before, u, k);
            assert(named_at(after, u, c));
        }
        if u == name {
            assert(named_at(after, u, n));
        }
    }
    assert forall|u: Seq<char>| #[trigger] as_map(after).contains_key(u) implies as_map(after)[u]
        == goal[u] by {
        let c = choose|k: int| #[trigger] named_at(after, u, k);
        lemma_row(after, c);
        if c < n {
            lemma_row(before, c);
        }
    }
    assert(as_map(after) =~= goal);
}

proof fn lemma_remove<T>(before: Seq<(Seq<char>, T)>, i: int)
    requires
        distinct(before),
        0 <= i < before.len(),
    ensures
        distinct(before.remove(i)),
        as_map(before.remove(i)) == as_map(before).remove(before[i].0),
{
    let name = before[i].0;
    let after = before.remove(i);
    let goal = as_map(before).remove(name);
    assert forall|j: int| 0 <= j < after.len() implies #[trigger] after[j] == before[if j < i {
        j
    } else {
        j + 1
    }] by {}
    assert(distinct(after));
    assert forall|u: Seq<char>| #[trigger] as_map(after).contains_key(u) <==> goal.contains_key(
        u,
    ) by {
        if as_map(after).contains_key(u) {
            let c = choose|k: int| #[trigger] named_at(after, u, k);
            let d = if c < i {
                c
            } else {
                c + 1
            };
            assert(after[c] == before[d]);
            assert(named_at(before, u, d));
            if u == name {
                assert(before[d].0 == before[i].0);
            }
        }
        if goal.contains_key(u) {
            let d = choose|k: int| #[trigger] named_at(before, u, k);
            let c = if d < i {
                d
            } else {
                d - 1
            };
            assert(after[c] == before[d]);
            assert(named_at(after, u, c));
        }
    }
    assert forall|u: Seq<char>| #[trigger] as_map(after).contains_key(u) implies as_map(after)[u]
        == goal[u] by {
        let c = choose|k: int| #[trigger] named_at(after, u, k);
        let d = if c < i {
            c
        } else {
            c + 1
        };
        assert(after[c] == before[d]);
        lemma_row(after, c);
        lemma_row(before, d);
    }
    assert(as_map(after) =~= goal);
}

/// Values by name, in the order in which the names came in.
#[derive(Debug)]
pub struct Table<T> {
    rows: Vec<(String, T)>,
}

spec fn listed<T>(rows: Seq<(String, T)>) -> Seq<(Seq<char>, T)> {
    rows.map_values(|r: (String, T)| (r.0@, r.1))
}

impl<T> Table<T> {
    /// The rows in order.
    pub closed spec fn listing(&self) -> Seq<(Seq<char>, T)> {
        listed(self.rows@)
    }

    #[verifier::type_invariant]
    spec fn inv(&self) -> bool {
        distinct(listed(self.rows@))
    }
}

impl<T> View for Table<T> {
    type V = Map<Seq<char>, T>;

    open spec fn view(&self) -> Map<Seq<char>, T> {
        as_map(self.listing())
    }
}

impl<T> Default for Table<T> {
    fn default() -> (r: Table<T>)
        ensures
            r.listing() == Seq::<(Seq<char>, T)>::empty(),
            r@ == Map::<Seq<char>, T>::empty(),
    {
        Table::new()
    }
}

impl<T> Table<T> {
    /// A table without rows.
    pub fn new() -> (r: Table<T>)
        ensures
            r.listing() == Seq::<(Seq<char>, T)>::empty(),
            r@ == Map::<Seq<char>, T>::empty(),
    {
        let rows: Vec<(String, T)> = Vec::new();
        assert(listed(rows@) =~= Seq::empty());
        let r = Table { rows };
        assert(r@ =~= Map::<Seq<char>, T>::empty());
        r
    }

    /// No name stands twice.
    pub fn len(&self) -> (r: usize)
        ensures
            r == self.listing().len(),
            distinct(self.listing()),
    {
        proof {
            use_type_invariant(self);
        }
        self.rows.len()
    }

    /// The name of row `i`.
    pub fn name_at(&self, i: usize) -> (r: &str)
        requires
            i < self.listing().len(),
        ensures
            r@ == self.listing()[i as int].0,
    {
        self.rows[i].0.as_str()
    }

    /// The value of row `i`.
    pub fn value_at(&self, i: usize) -> (r: &T)
        requires
            i < self.listing().len(),
        ensures
            *r == self.listing()[i as int].1,
    {
        &self.rows[i].1
    }

    /// Where the row of `name` stands.
    pub fn find(&self, name: &str) -> (r: Option<usize>)
        ensures
            match r {
                Some(i) => i < self.listing().len() && self.listing()[i as int].0 == name@
                    && self@.contains_key(name@) && self@[name@] == self.listing()[i as int].1,
                None => !self@.contains_key(name@),
            },
    {
        proof {
            use_type_invariant(self);
        }
        let mut i: usize = 0;
        while i < self.rows.len()
            invariant
                distinct(self.listing()),
                i <= self.rows@.len(),
                forall|j: int| 0 <= j < i ==> (#[trigger] self.listing()[j]).0 != name@,
            decreases self.rows@.len() - i,
        {
            if text_eq(self.rows[i].0.as_str(), name) {
                proof {
                    assert(self.listing()[i as int].0 == name@);
                    lemma_row(self.listing(), i as int);
                }
                return Some(i);
            }
            i += 1;
        }
        proof {
            assert forall|j: int| !named_at(self.listing(), name@, j) by {}
        }
        None
    }

    /// What stands under `name`.
    pub fn get(&self, name: &str) -> (r: Option<&T>)
        ensures
            match r {
                Some(v) => self@.contains_key(name@) && *v == self@[name@],
                None => !self@.contains_key(name@),
            },
    {
        match self.find(name) {
            Some(i) => Some(&self.rows[i].1),
            None => None,
        }
    }

    /// Whether anything stands under `name`.
    pub fn contains(&self, name: &str) -> (r: bool)
        ensures
            r == self@.contains_key(name@),
    {
        self.find(name).is_some()
    }

    /// Puts `value` under `name`, in the place of what stood there.
    pub fn insert(&mut self, name: &str, value: T)
        ensures
            final(self)@ == old(self)@.insert(name@, value),
            final(self).listing() == with_row(old(self).listing(), name@, value),
    {
        proof {
            use_type_invariant(&*self);
        }
        let ghost before = self.listing();
        let found = self.find(name);
        let mut rows: Vec<(String, T)> = Vec::new();
        std::mem::swap(&mut rows, &mut self.rows);
        let ghost taken = rows@;
        match found {
            Some(i) => {
                rows[i] = (name.to_string(), value);
                proof {
                    lemma_update(before, i as int, value);
                    assert(listed(rows@) =~= before.update(i as int, (name@, value)));
                }
            },
            None => {
                rows.push((name.to_string(), value));
                proof {
                    lemma_push(before, name@, value);
                    assert(listed(rows@) =~= before.push((name@, value)));
                }
            },
        }
        self.rows = rows;
    }

    /// The rows, in order.
    pub fn into_rows(self) -> (r: Vec<(String, T)>)
        ensures
            r@.len() == self.listing().len(),
            forall|i: int|
                0 <= i < r@.len() ==> (#[trigger] r@[i]).0@ == self.listing()[i].0 && r@[i].1
                    == self.listing()[i].1,
            distinct(self.listing()),
    {
        proof {
            use_type_invariant(&self);
        }
        self.rows
    }

    /// Takes out the row at `i`.
    pub fn remove_at(&mut self, i: usize) -> (r: T)
        requires
            i < old(self).listing().len(),
        ensures
            r == old(self).listing()[i as int].1,
            final(self).listing() == old(self).listing().remove(i as int),
            final(self)@ == old(self)@.remove(old(self).listing()[i as int].0),
    {
        proof {
            use_type_invariant(&*self);
        }
        let ghost before = self.listing();
        let mut rows: Vec<(String, T)> = Vec::new();
        std::mem::swap(&mut rows, &mut self.rows);
        let row = rows.remove(i);
        proof {
            lemma_remove(before, i as int);
            assert(listed(rows@) =~= before.remove(i as int));
        }
        self.rows = rows;
        row.1
    }

    /// Takes out what stands under `name`.
    pub fn remove(&mut self, name: &str) -> (r: Option<T>)
        ensures
            final(self)@ == old(self)@.remove(name@),
            match r {
                Some(v) => old(self)@.contains_key(name@) && v == old(self)@[name@],
                None => !old(self)@.contains_key(name@) && *final(self) == *old(self),
            },
    {
        proof {
            use_type_invariant(&*self);
        }
        match self.find(name) {
            Some(i) => Some(self.remove_at(i)),
            None => {
                assert(self@.remove(name@) =~= self@);
                None
            },
        }
    }
}

/// A table has each value under its name: what is put under a name is found under it and
/// replaces what was there, and nothing else changes.
pub proof fn law_a_value_is_found_under_its_name<T>(
    listing: Seq<(Seq<char>, T)>,
    name: Seq<char>,
    value: T,
)
    requires
        distinct(listing),
    ensures
        distinct(with_row(listing, name, value)),
        as_map(with_row(listing, name, value)) == as_map(listing).insert(name, value),
        with_row(listing, name, value).len() == listing.len() + (if as_map(listing).contains_key(
            name,
        ) {
            0int
        } else {
            1
        }),
        forall|i: int|
            0 <= i < listing.len() && (#[trigger] listing[i]).0 != name ==> with_row(
                listing,
                name,
                value,
            )[i] == listing[i],
{
    if exists|i: int| #[trigger] named_at(listing, name, i) {
        let i = choose|i: int| #[trigger] named_at(listing, name, i);
        lemma_update(listing, i, value);
    } else {
        lemma_push(listing, name, value);
    }
}

} // verus!
