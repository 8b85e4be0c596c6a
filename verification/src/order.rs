//! The order of texts, and stable sorting by it.

use vstd::multiset::Multiset;
use vstd::prelude::*;

use crate::text::{chars_of, code_point, text_eq, views};

verus! {

/// Whether `a` comes before `b` in the order of strings: by the first character
/// in which they differ, and a proper prefix first.
pub open spec fn text_lt(a: Seq<char>, b: Seq<char>) -> bool
    decreases a.len(),
{
    if b.len() == 0 {
        false
    } else if a.len() == 0 {
        true
    } else if a[0] != b[0] {
        (a[0] as int) < (b[0] as int)
    } else {
        text_lt(a.skip(1), b.skip(1))
    }
}

/// Whether `a` comes before `b` when lists of texts are ordered by the first
/// text in which they differ.
pub open spec fn key_lt(a: Seq<Seq<char>>, b: Seq<Seq<char>>) -> bool
    decreases a.len(),
{
    if b.len() == 0 {
        false
    } else if a.len() == 0 {
        true
    } else if a[0] != b[0] {
        text_lt(a[0], b[0])
    } else {
        key_lt(a.skip(1), b.skip(1))
    }
}

/// Whether `a` is `b` or comes before it.
pub open spec fn key_le(a: Seq<Seq<char>>, b: Seq<Seq<char>>) -> bool {
    a == b || key_lt(a, b)
}

/// No text comes before itself, and of two different texts exactly one comes
/// first.
pub proof fn lemma_text_total(a: Seq<char>, b: Seq<char>)
    ensures
        !text_lt(a, a),
        a != b ==> (text_lt(a, b) <==> !text_lt(b, a)),
    decreases a.len(),
{
    if a.len() > 0 {
        lemma_text_total(a.skip(1), a.skip(1));
    }
    if a.len() > 0 && b.len() > 0 {
        lemma_text_total(a.skip(1), b.skip(1));
        if a[0] == b[0] && a.skip(1) == b.skip(1) {
            assert(a =~= seq![a[0]] + a.skip(1));
            assert(b =~= seq![b[0]] + b.skip(1));
        }
    } else if a.len() == 0 && b.len() == 0 {
        assert(a =~= b);
    }
}

/// The order of texts is transitive.
pub proof fn lemma_text_transitive(a: Seq<char>, b: Seq<char>, c: Seq<char>)
    requires
        text_lt(a, b),
        text_lt(b, c),
    ensures
        text_lt(a, c),
    decreases a.len(),
{
    if a.len() > 0 && b.len() > 0 && c.len() > 0 && a[0] == b[0] && b[0] == c[0] {
        lemma_text_transitive(a.skip(1), b.skip(1), c.skip(1));
    }
}

/// No list comes before itself, and of two different lists exactly one comes
/// first.
pub proof fn lemma_key_total(a: Seq<Seq<char>>, b: Seq<Seq<char>>)
    ensures
        !key_lt(a, a),
        a != b ==> (key_lt(a, b) <==> !key_lt(b, a)),
    decreases a.len(),
{
    if a.len() > 0 {
        lemma_key_total(a.skip(1), a.skip(1));
    }
    if a.len() > 0 && b.len() > 0 {
        lemma_key_total(a.skip(1), b.skip(1));
        lemma_text_total(a[0], b[0]);
        if a[0] == b[0] && a.skip(1) == b.skip(1) {
            assert(a =~= seq![a[0]] + a.skip(1));
            assert(b =~= seq![b[0]] + b.skip(1));
        }
    } else if a.len() == 0 && b.len() == 0 {
        assert(a =~= b);
    }
}

/// The order of lists of texts is transitive.
pub proof fn lemma_key_transitive(a: Seq<Seq<char>>, b: Seq<Seq<char>>, c: Seq<Seq<char>>)
    requires
        key_lt(a, b),
        key_lt(b, c),
    ensures
        key_lt(a, c),
    decreases a.len(),
{
    if a.len() > 0 && b.len() > 0 && c.len() > 0 {
        lemma_text_total(a[0], c[0]);
        lemma_text_total(a[0], b[0]);
        if a[0] == b[0] && b[0] == c[0] {
            lemma_key_transitive(a.skip(1), b.skip(1), c.skip(1));
        } else if a[0] != b[0] && b[0] != c[0] {
            lemma_text_transitive(a[0], b[0], c[0]);
        }
    }
}

/// Whether `a` comes before `b`.
pub fn text_before(a: &str, b: &str) -> (r: bool)
    ensures
        r == text_lt(a@, b@),
{
    let x = chars_of(a);
    let y = chars_of(b);
    let mut i: usize = 0;
    assert(a@.skip(0) =~= a@);
    assert(b@.skip(0) =~= b@);
    while i < x.len() && i < y.len()
        invariant
            i <= x@.len(),
            i <= y@.len(),
            x@ == a@,
            y@ == b@,
            text_lt(a@, b@) == text_lt(a@.skip(i as int), b@.skip(i as int)),
        decreases x@.len() - i,
    {
        proof {
            assert(a@.skip(i as int).skip(1) =~= a@.skip(i + 1));
            assert(b@.skip(i as int).skip(1) =~= b@.skip(i + 1));
        }
        let c: char = x[i];
        let d: char = y[i];
        if c != d {
            return code_point(c) < code_point(d);
        }
        i += 1;
    }
    i < y.len()
}

/// A value that is put in order by a list of texts.
pub trait Sortable: View + Sized {
    /// The list of texts that a value is ordered by.
    spec fn sort_key(v: Self::V) -> Seq<Seq<char>>;

    /// Whether this value may stand before `other`.
    fn not_after(&self, other: &Self) -> (r: bool)
        ensures
            r == key_le(Self::sort_key(self@), Self::sort_key(other@)),
    ;
}

impl Sortable for String {
    open spec fn sort_key(v: Seq<char>) -> Seq<Seq<char>> {
        seq![v]
    }

    fn not_after(&self, other: &Self) -> (r: bool) {
        let r = text_eq(self.as_str(), other.as_str()) || text_before(
            self.as_str(),
            other.as_str(),
        );
        proof {
            lemma_one_key(self@, other@);
        }
        r
    }
}

impl Sortable for (String, String) {
    open spec fn sort_key(v: (Seq<char>, Seq<char>)) -> Seq<Seq<char>> {
        seq![v.0, v.1]
    }

    fn not_after(&self, other: &Self) -> (r: bool) {
        pair_not_after(self.0.as_str(), self.1.as_str(), other.0.as_str(), other.1.as_str())
    }
}

/// Whether the pair `(a0, a1)` is `(b0, b1)` or comes before it.
pub fn pair_not_after(a0: &str, a1: &str, b0: &str, b1: &str) -> (r: bool)
    ensures
        r == key_le(seq![a0@, a1@], seq![b0@, b1@]),
{
    proof {
        lemma_two_keys(a0@, a1@, b0@, b1@);
    }
    if text_eq(a0, b0) {
        text_eq(a1, b1) || text_before(a1, b1)
    } else {
        text_before(a0, b0)
    }
}

/// Whether the list `a` is `b` or comes before it.
pub fn list_not_after(a: &Vec<String>, b: &Vec<String>) -> (r: bool)
    ensures
        r == key_le(views(a@), views(b@)),
{
    let mut i: usize = 0;
    assert(views(a@).skip(0) =~= views(a@));
    assert(views(b@).skip(0) =~= views(b@));
    while i < a.len() && i < b.len()
        invariant
            i <= a@.len(),
            i <= b@.len(),
            key_lt(views(a@), views(b@)) == key_lt(
                views(a@).skip(i as int),
                views(b@).skip(i as int),
            ),
            views(a@).take(i as int) == views(b@).take(i as int),
        decreases a@.len() - i,
    {
        proof {
            let x = views(a@).skip(i as int);
            let y = views(b@).skip(i as int);
            assert(x.skip(1) =~= views(a@).skip(i + 1));
            assert(y.skip(1) =~= views(b@).skip(i + 1));
            assert(x[0] == a@[i as int]@);
            assert(y[0] == b@[i as int]@);
        }
        if !text_eq(a[i].as_str(), b[i].as_str()) {
            proof {
                if views(a@) == views(b@) {
                    assert(views(a@)[i as int] == views(b@)[i as int]);
                }
            }
            return text_before(a[i].as_str(), b[i].as_str());
        }
        proof {
            assert(views(a@).take(i + 1) =~= views(a@).take(i as int).push(a@[i as int]@));
            assert(views(b@).take(i + 1) =~= views(b@).take(i as int).push(b@[i as int]@));
        }
        i += 1;
    }
    proof {
        if a@.len() == b@.len() {
            assert(views(a@).take(i as int) =~= views(a@));
            assert(views(b@).take(i as int) =~= views(b@));
        }
    }
    a.len() <= b.len()
}

/// Lists of one text are ordered as the texts are.
pub proof fn lemma_one_key(a: Seq<char>, b: Seq<char>)
    ensures
        key_le(seq![a], seq![b]) == (a == b || text_lt(a, b)),
{
    reveal_with_fuel(key_lt, 2);
    assert(seq![a].skip(1) =~= seq![]);
    assert(seq![b].skip(1) =~= seq![]);
    if seq![a] == seq![b] {
        assert(seq![a][0] == seq![b][0]);
    }
}

/// Lists of two texts are ordered by the first, then by the second.
pub proof fn lemma_two_keys(a0: Seq<char>, a1: Seq<char>, b0: Seq<char>, b1: Seq<char>)
    ensures
        key_le(seq![a0, a1], seq![b0, b1]) == (if a0 == b0 {
            a1 == b1 || text_lt(a1, b1)
        } else {
            text_lt(a0, b0)
        }),
{
    assert(seq![a0, a1].skip(1) =~= seq![a1]);
    assert(seq![b0, b1].skip(1) =~= seq![b1]);
    lemma_one_key(a1, b1);
    lemma_key_total(seq![a1], seq![a1]);
    if seq![a0, a1] == seq![b0, b1] {
        assert(seq![a0, a1][0] == seq![b0, b1][0]);
        assert(seq![a0, a1][1] == seq![b0, b1][1]);
    }
    if seq![a1] == seq![b1] {
        assert(seq![a1][0] == seq![b1][0]);
    }
    assert(key_lt(seq![a0, a1], seq![b0, b1]) == (if a0 == b0 {
        key_lt(seq![a1], seq![b1])
    } else {
        text_lt(a0, b0)
    })) by {
        assert(seq![a0, a1][0] == a0);
        assert(seq![b0, b1][0] == b0);
    }
}

/// Where `x` goes into the ordered list `s`: behind every value that may stand
/// before it.
pub open spec fn insert_at<T: Sortable>(s: Seq<T::V>, x: T::V) -> int
    decreases s.len(),
{
    if s.len() == 0 || key_le(T::sort_key(s.last()), T::sort_key(x)) {
        s.len() as int
    } else {
        insert_at::<T>(s.drop_last(), x)
    }
}

/// `s` put in order, values with equal keys in the order they came in.
pub open spec fn sorted<T: Sortable>(s: Seq<T::V>) -> Seq<T::V>
    decreases s.len(),
{
    if s.len() == 0 {
        s
    } else {
        let rest = sorted::<T>(s.drop_last());
        rest.insert(insert_at::<T>(rest, s.last()), s.last())
    }
}

/// Whether the keys of `s` never go down.
pub open spec fn in_order<T: Sortable>(s: Seq<T::V>) -> bool {
    forall|i: int, j: int|
        #![trigger s[i], s[j]]
        0 <= i < j < s.len() ==> key_le(T::sort_key(s[i]), T::sort_key(s[j]))
}

pub proof fn lemma_insert_at<T: Sortable>(s: Seq<T::V>, x: T::V)
    requires
        in_order::<T>(s),
    ensures
        0 <= insert_at::<T>(s, x) <= s.len(),
        in_order::<T>(s.insert(insert_at::<T>(s, x), x)),
        forall|i: int|
            0 <= i < insert_at::<T>(s, x) ==> key_le(T::sort_key(#[trigger] s[i]), T::sort_key(x)),
        forall|i: int|
            insert_at::<T>(s, x) <= i < s.len() ==> !key_le(
                T::sort_key(#[trigger] s[i]),
                T::sort_key(x),
            ),
    decreases s.len(),
{
    let k = insert_at::<T>(s, x);
    if s.len() > 0 && !key_le(T::sort_key(s.last()), T::sort_key(x)) {
        lemma_insert_at::<T>(s.drop_last(), x);
        assert forall|i: int| 0 <= i < k implies key_le(
            T::sort_key(#[trigger] s[i]),
            T::sort_key(x),
        ) by {
            assert(s.drop_last()[i] == s[i]);
        }
        assert forall|i: int| k <= i < s.len() implies !key_le(
            T::sort_key(#[trigger] s[i]),
            T::sort_key(x),
        ) by {
            if i < s.len() - 1 {
                assert(s.drop_last()[i] == s[i]);
            }
        }
    } else if s.len() > 0 {
        assert forall|i: int| 0 <= i < k implies key_le(
            T::sort_key(#[trigger] s[i]),
            T::sort_key(x),
        ) by {
            if i < s.len() - 1 {
                lemma_key_le_transitive(
                    T::sort_key(s[i]),
                    T::sort_key(s.last()),
                    T::sort_key(x),
                );
            }
        }
    }
    let t = s.insert(k, x);
    assert forall|i: int, j: int| #![trigger t[i], t[j]] 0 <= i < j < t.len() implies key_le(
        T::sort_key(t[i]),
        T::sort_key(t[j]),
    ) by {
        if i == k {
            assert(t[j] == s[j - 1]);
            lemma_key_total(T::sort_key(s[j - 1]), T::sort_key(x));
        } else if j == k {
            assert(t[i] == s[i]);
        }
    }
}

proof fn lemma_key_le_transitive(a: Seq<Seq<char>>, b: Seq<Seq<char>>, c: Seq<Seq<char>>)
    requires
        key_le(a, b),
        key_le(b, c),
    ensures
        key_le(a, c),
{
    if key_lt(a, b) && key_lt(b, c) {
        lemma_key_transitive(a, b, c);
    }
}

/// Sorting loses and adds nothing, and its result is in order.
pub proof fn lemma_sorted<T: Sortable>(s: Seq<T::V>)
    ensures
        sorted::<T>(s).len() == s.len(),
        sorted::<T>(s).to_multiset() == s.to_multiset(),
        in_order::<T>(sorted::<T>(s)),
        forall|v: T::V| sorted::<T>(s).contains(v) <==> s.contains(v),
    decreases s.len(),
{
    broadcast use vstd::seq_lib::group_to_multiset_ensures;

    if s.len() > 0 {
        let rest = sorted::<T>(s.drop_last());
        lemma_sorted::<T>(s.drop_last());
        lemma_insert_at::<T>(rest, s.last());
        let k = insert_at::<T>(rest, s.last());
        assert(s =~= s.drop_last().push(s.last()));
    }
    assert forall|v: T::V| sorted::<T>(s).contains(v) <==> s.contains(v) by {
        assert(sorted::<T>(s).contains(v) <==> sorted::<T>(s).to_multiset().count(v) > 0);
        assert(s.contains(v) <==> s.to_multiset().count(v) > 0);
    }
}

/// Sorting different values gives different values.
pub proof fn lemma_sorted_no_duplicates<T: Sortable>(s: Seq<T::V>)
    requires
        s.no_duplicates(),
    ensures
        sorted::<T>(s).no_duplicates(),
{
    lemma_sorted::<T>(s);
    s.lemma_multiset_has_no_duplicates();
    sorted::<T>(s).lemma_multiset_has_no_duplicates_conv();
}

/// What `f` makes of the values of `s`, where it makes something of them.
pub open spec fn gathered<A, B>(s: Seq<A>, f: spec_fn(A) -> Option<B>) -> Seq<B>
    decreases s.len(),
{
    if s.len() == 0 {
        seq![]
    } else {
        let rest = gathered(s.drop_last(), f);
        match f(s.last()) {
            Some(b) => rest.push(b),
            None => rest,
        }
    }
}

spec fn share<B>(o: Option<B>) -> Multiset<B> {
    match o {
        Some(b) => Multiset::singleton(b),
        None => Multiset::empty(),
    }
}

proof fn lemma_gathered_without<A, B>(s: Seq<A>, f: spec_fn(A) -> Option<B>, i: int)
    requires
        0 <= i < s.len(),
    ensures
        gathered(s, f).to_multiset() == gathered(s.remove(i), f).to_multiset().add(share(f(s[i]))),
    decreases s.len(),
{
    broadcast use vstd::seq_lib::group_to_multiset_ensures;

    let front = s.drop_last();
    let rest = gathered(front, f);
    if i == s.len() - 1 {
        assert(s.remove(i) =~= front);
        match f(s.last()) {
            Some(b) => {
                assert(rest.push(b).to_multiset() =~= rest.to_multiset().insert(b));
                assert(rest.to_multiset().insert(b) =~= rest.to_multiset().add(
                    Multiset::singleton(b),
                ));
            },
            None => {
                assert(rest.to_multiset() =~= rest.to_multiset().add(Multiset::empty()));
            },
        }
    } else {
        lemma_gathered_without(front, f, i);
        let less = s.remove(i);
        assert(less.drop_last() =~= front.remove(i));
        assert(less.last() == s.last());
        let fewer = gathered(front.remove(i), f);
        match f(s.last()) {
            Some(b) => {
                assert(rest.push(b).to_multiset() =~= rest.to_multiset().insert(b));
                assert(fewer.push(b).to_multiset() =~= fewer.to_multiset().insert(b));
                assert(fewer.to_multiset().add(share(f(s[i]))).insert(b)
                    =~= fewer.to_multiset().insert(b).add(share(f(s[i]))));
            },
            None => {},
        }
    }
}

/// What is gathered from the same values in another order is the same, in another
/// order.
pub proof fn lemma_gathered_in_any_order<A, B>(a: Seq<A>, b: Seq<A>, f: spec_fn(A) -> Option<B>)
    requires
        a.to_multiset() == b.to_multiset(),
    ensures
        gathered(a, f).to_multiset() == gathered(b, f).to_multiset(),
    decreases a.len(),
{
    broadcast use vstd::seq_lib::group_to_multiset_ensures;

    assert(a.len() == a.to_multiset().len());
    assert(b.len() == b.to_multiset().len());
    if a.len() > 0 {
        let x = a.last();
        assert(a.contains(x)) by {
            assert(a[a.len() - 1] == x);
        }
        assert(b.to_multiset().count(x) > 0);
        assert(b.contains(x));
        let j = choose|j: int| 0 <= j < b.len() && b[j] == x;
        assert(a.remove(a.len() - 1) =~= a.drop_last());
        assert(a.drop_last().to_multiset() =~= b.remove(j).to_multiset());
        lemma_gathered_in_any_order(a.drop_last(), b.remove(j), f);
        lemma_gathered_without(a, f, a.len() - 1);
        lemma_gathered_without(b, f, j);
    } else {
        assert(b =~= a);
    }
}

/// What is gathered from two lists, one after the other, is what is gathered from each;
/// from one value it is what is made of that value.
pub proof fn law_gathering_goes_value_by_value<A, B>(
    a: Seq<A>,
    b: Seq<A>,
    x: A,
    f: spec_fn(A) -> Option<B>,
)
    ensures
        gathered(a + b, f) == gathered(a, f) + gathered(b, f),
        gathered(seq![x], f) == (match f(x) {
            Some(y) => seq![y],
            None => seq![],
        }),
    decreases b.len(),
{
    assert(seq![x].drop_last() =~= seq![]);
    assert(gathered(seq![x].drop_last(), f) =~= seq![]);
    assert(gathered(seq![x], f) =~= (match f(x) {
        Some(y) => seq![y],
        None => seq![],
    }));
    if b.len() == 0 {
        assert(a + b =~= a);
        assert(gathered(a, f) + gathered(b, f) =~= gathered(a, f));
    } else {
        law_gathering_goes_value_by_value(a, b.drop_last(), x, f);
        assert((a + b).drop_last() =~= a + b.drop_last());
        assert((a + b).last() == b.last());
        assert(gathered(a + b, f) =~= gathered(a, f) + gathered(b, f));
    }
}

/// A value is gathered exactly if it is made of some value of the list.
pub proof fn law_gathered_values_are_those_that_are_made<A, B>(
    s: Seq<A>,
    f: spec_fn(A) -> Option<B>,
    b: B,
)
    ensures
        gathered(s, f).contains(b) <==> exists|i: int|
            0 <= i < s.len() && f(#[trigger] s[i]) == Some(b),
        gathered(s, f).len() <= s.len(),
    decreases s.len(),
{
    if s.len() > 0 {
        let front = s.drop_last();
        let rest = gathered(front, f);
        let all = gathered(s, f);
        law_gathered_values_are_those_that_are_made(front, f, b);
        if rest.contains(b) {
            let k = choose|k: int| 0 <= k < rest.len() && rest[k] == b;
            assert(all[k] == b);
            let i = choose|i: int| 0 <= i < front.len() && f(#[trigger] front[i]) == Some(b);
            assert(f(s[i]) == Some(b));
        }
        if f(s.last()) == Some(b) {
            assert(all[rest.len() as int] == b);
            assert(f(s[s.len() - 1]) == Some(b));
        }
        if exists|i: int| 0 <= i < s.len() && f(#[trigger] s[i]) == Some(b) {
            let i = choose|i: int| 0 <= i < s.len() && f(#[trigger] s[i]) == Some(b);
            if i < front.len() {
                assert(f(front[i]) == Some(b));
            }
        }
        if all.contains(b) && !rest.contains(b) {
            let k = choose|k: int| 0 <= k < all.len() && all[k] == b;
            if k < rest.len() {
                assert(rest[k] == b);
            }
        }
    }
}

/// Two lists in order that hold the same values are the same, if values with the same
/// key are.
proof fn lemma_in_order_unique<T: Sortable>(s: Seq<T::V>, t: Seq<T::V>)
    requires
        in_order::<T>(s),
        in_order::<T>(t),
        s.to_multiset() == t.to_multiset(),
        forall|x: T::V, y: T::V|
            #![trigger s.contains(x), s.contains(y)]
            s.contains(x) && s.contains(y) && T::sort_key(x) == T::sort_key(y) ==> x == y,
    ensures
        s == t,
    decreases s.len(),
{
    broadcast use vstd::seq_lib::group_to_multiset_ensures;

    assert(s.len() == s.to_multiset().len());
    assert(t.len() == t.to_multiset().len());
    if s.len() > 0 {
        let n = s.len() - 1;
        let x = s.last();
        let y = t.last();
        assert(s[n] == x);
        assert(t[n] == y);
        assert(t.to_multiset().count(y) > 0) by {
            assert(t.contains(y));
        }
        assert(s.contains(y));
        assert(s.contains(x));
        assert(t.to_multiset().count(x) > 0);
        assert(t.contains(x));
        let i = choose|i: int| 0 <= i < s.len() && s[i] == y;
        let j = choose|j: int| 0 <= j < t.len() && t[j] == x;
        assert(key_le(T::sort_key(y), T::sort_key(x))) by {
            if i < n {
                assert(key_le(T::sort_key(s[i]), T::sort_key(s[n])));
            }
        }
        assert(key_le(T::sort_key(x), T::sort_key(y))) by {
            if j < n {
                assert(key_le(T::sort_key(t[j]), T::sort_key(t[n])));
            }
        }
        lemma_key_total(T::sort_key(x), T::sort_key(y));
        assert(x == y);
        assert(s.remove(n) =~= s.drop_last());
        assert(t.remove(n) =~= t.drop_last());
        let front = s.drop_last();
        assert(front.to_multiset() =~= t.drop_last().to_multiset());
        assert forall|v: T::V| front.contains(v) implies s.contains(v) by {
            let k = choose|k: int| 0 <= k < front.len() && front[k] == v;
            assert(s[k] == v);
        }
        assert(in_order::<T>(front)) by {
            assert forall|a: int, b: int|
                #![trigger front[a], front[b]]
                0 <= a < b < front.len() implies key_le(
                T::sort_key(front[a]),
                T::sort_key(front[b]),
            ) by {
                assert(key_le(T::sort_key(s[a]), T::sort_key(s[b])));
            }
        }
        assert(in_order::<T>(t.drop_last())) by {
            assert forall|a: int, b: int|
                #![trigger t.drop_last()[a], t.drop_last()[b]]
                0 <= a < b < t.drop_last().len() implies key_le(
                T::sort_key(t.drop_last()[a]),
                T::sort_key(t.drop_last()[b]),
            ) by {
                assert(key_le(T::sort_key(t[a]), T::sort_key(t[b])));
            }
        }
        lemma_in_order_unique::<T>(front, t.drop_last());
        assert(s =~= front.push(x));
        assert(t =~= t.drop_last().push(y));
    } else {
        assert(s =~= t);
    }
}

/// Sorting the same values gives the same list, in whatever order they come, if values
/// with the same key are the same.
pub proof fn lemma_sorted_in_any_order<T: Sortable>(a: Seq<T::V>, b: Seq<T::V>)
    requires
        a.to_multiset() == b.to_multiset(),
        forall|x: T::V, y: T::V|
            #![trigger a.contains(x), a.contains(y)]
            a.contains(x) && a.contains(y) && T::sort_key(x) == T::sort_key(y) ==> x == y,
    ensures
        sorted::<T>(a) == sorted::<T>(b),
{
    lemma_sorted::<T>(a);
    lemma_sorted::<T>(b);
    let s = sorted::<T>(a);
    assert forall|x: T::V, y: T::V|
        #![trigger s.contains(x), s.contains(y)]
        s.contains(x) && s.contains(y) && T::sort_key(x) == T::sort_key(y) implies x == y by {
        assert(a.contains(x) && a.contains(y));
    }
    lemma_in_order_unique::<T>(s, sorted::<T>(b));
}

/// Puts `v` in order, values with equal keys in the order they came in.
pub fn sort<T: Sortable>(v: Vec<T>) -> (r: Vec<T>)
    ensures
        views(r@) == sorted::<T>(views(v@)),
{
    let ghost all = v@;
    let mut out: Vec<T> = Vec::new();
    for x in it: v
        invariant
            it.seq() == all,
            views(out@) == sorted::<T>(views(all.take(it.index()))),
    {
        let ghost done = views(all.take(it.index()));
        let ghost before = out@;
        let mut k: usize = out.len();
        assert(views(before).take(k as int) =~= views(before));
        while k > 0 && !out[k - 1].not_after(&x)
            invariant
                k <= out@.len(),
                out@ == before,
                insert_at::<T>(views(before), x@) == insert_at::<T>(
                    views(before).take(k as int),
                    x@,
                ),
            decreases k,
        {
            proof {
                assert(views(before).take(k as int).drop_last() =~= views(before).take(k - 1));
            }
            k -= 1;
        }
        proof {
            let part = views(before).take(k as int);
            assert(part.len() == k);
            if k > 0 {
                assert(part.last() == before[k - 1]@);
            }
            assert(insert_at::<T>(part, x@) == k);
            assert(views(all.take(it.index() + 1)).drop_last() =~= done);
            assert(views(all.take(it.index() + 1)).last() == x@);
        }
        let ghost value = x@;
        out.insert(k, x);
        proof {
            assert(views(out@) =~= views(before).insert(k as int, value));
        }
    }
    assert(all.take(all.len() as int) =~= all);
    out
}

/// `s` without the texts that are the same as the one before them.
pub open spec fn without_repeats(s: Seq<Seq<char>>) -> Seq<Seq<char>>
    decreases s.len(),
{
    if s.len() == 0 {
        seq![]
    } else {
        let rest = without_repeats(s.drop_last());
        if rest.len() > 0 && rest.last() == s.last() {
            rest
        } else {
            rest.push(s.last())
        }
    }
}

/// The texts in order, each once.
pub open spec fn sorted_set(s: Seq<Seq<char>>) -> Seq<Seq<char>> {
    without_repeats(sorted::<String>(s))
}

/// Puts texts in order and leaves out repeats.
pub fn sort_and_dedup(v: Vec<String>) -> (r: Vec<String>)
    ensures
        views(r@) == sorted_set(views(v@)),
{
    let v = sort(v);
    let ghost all = views(v@);
    let mut out: Vec<String> = Vec::new();
    let mut i: usize = 0;
    assert(all.take(0) =~= seq![]);
    assert(views(out@) =~= seq![]);
    while i < v.len()
        invariant
            all == views(v@),
            i <= v@.len(),
            views(out@) == without_repeats(all.take(i as int)),
        decreases v@.len() - i,
    {
        let ghost before = out@;
        proof {
            assert(all.take(i + 1).drop_last() =~= all.take(i as int));
            assert(all.take(i + 1).last() == v@[i as int]@);
            if out@.len() > 0 {
                assert(views(out@).last() == out@[out@.len() - 1]@);
            }
        }
        let n: usize = out.len();
        if n == 0 || !text_eq(out[n - 1].as_str(), v[i].as_str()) {
            out.push(v[i].clone());
            assert(views(out@) =~= views(before).push(v@[i as int]@));
        }
        i += 1;
    }
    assert(all.take(all.len() as int) =~= all);
    out
}

proof fn lemma_without_repeats(s: Seq<Seq<char>>, x: Seq<char>)
    requires
        in_order::<String>(s),
    ensures
        without_repeats(s).len() <= s.len(),
        s.len() > 0 ==> without_repeats(s).len() > 0 && without_repeats(s).last() == s.last(),
        without_repeats(s).contains(x) <==> s.contains(x),
        forall|i: int, j: int|
            #![trigger without_repeats(s)[i], without_repeats(s)[j]]
            0 <= i < j < without_repeats(s).len() ==> text_lt(
                without_repeats(s)[i],
                without_repeats(s)[j],
            ),
    decreases s.len(),
{
    if s.len() > 0 {
        let front = s.drop_last();
        let last = s.last();
        assert(in_order::<String>(front)) by {
            assert forall|a: int, b: int|
                #![trigger front[a], front[b]]
                0 <= a < b < front.len() implies key_le(
                String::sort_key(front[a]),
                String::sort_key(front[b]),
            ) by {
                assert(key_le(String::sort_key(s[a]), String::sort_key(s[b])));
            }
        }
        lemma_without_repeats(front, x);
        let rest = without_repeats(front);
        let all = without_repeats(s);
        if s.contains(x) {
            let k = choose|k: int| 0 <= k < s.len() && s[k] == x;
            if k < front.len() {
                assert(front[k] == x);
                assert(rest.contains(x));
                let m = choose|m: int| 0 <= m < rest.len() && rest[m] == x;
                assert(all[m] == x);
            } else {
                assert(all[all.len() - 1] == x);
            }
        }
        if all.contains(x) {
            let k = choose|k: int| 0 <= k < all.len() && all[k] == x;
            if k < rest.len() {
                assert(rest[k] == x);
                assert(rest.contains(x));
                let m = choose|m: int| 0 <= m < front.len() && front[m] == x;
                assert(s[m] == x);
            } else {
                assert(s[s.len() - 1] == x);
            }
        }
        assert forall|i: int, j: int|
            #![trigger all[i], all[j]]
            0 <= i < j < all.len() implies text_lt(all[i], all[j]) by {
            if j < rest.len() {
                assert(all[i] == rest[i] && all[j] == rest[j]);
            } else {
                // Everything in front is no later than the last text in front.
                assert(all[i] == rest[i]);
                let before = front.last();
                assert(before == s[s.len() - 2]);
                assert(rest.last() == before && before != last);
                assert(key_le(
                    String::sort_key(s[s.len() - 2]),
                    String::sort_key(s[s.len() - 1]),
                ));
                lemma_one_key(before, last);
                assert(text_lt(before, last));
                if i < rest.len() - 1 {
                    assert(text_lt(rest[i], rest[rest.len() - 1]));
                    lemma_text_transitive(rest[i], before, last);
                }
            }
        }
    }
}

/// Putting texts in order and leaving out repeats keeps every text, and each only once.
pub proof fn lemma_sorted_set(s: Seq<Seq<char>>, x: Seq<char>)
    ensures
        sorted_set(s).contains(x) <==> s.contains(x),
        sorted_set(s).no_duplicates(),
        forall|i: int, j: int|
            #![trigger sorted_set(s)[i], sorted_set(s)[j]]
            0 <= i < j < sorted_set(s).len() ==> text_lt(sorted_set(s)[i], sorted_set(s)[j]),
{
    lemma_sorted::<String>(s);
    lemma_without_repeats(sorted::<String>(s), x);
    let all = sorted_set(s);
    assert forall|i: int, j: int| 0 <= i < all.len() && 0 <= j < all.len() && i != j implies all[i]
        != all[j] by {
        lemma_text_total(all[i], all[j]);
        if i < j {
            assert(text_lt(all[i], all[j]));
        } else {
            assert(text_lt(all[j], all[i]));
        }
    }
}

// ---------------------------------------------------------------------------
// By number
// ---------------------------------------------------------------------------

/// What can be put in order by a number.
pub trait Ranked: View + Sized {
    /// The number that a value is ordered by.
    spec fn rank(v: Self::V) -> u64;

    /// The number that this value is ordered by.
    fn rank_of(&self) -> (r: u64)
        ensures
            r == Self::rank(self@),
    ;
}

/// Where `x` goes in a list that is ordered by number: behind those with the same number.
pub open spec fn rank_place<T: Ranked>(s: Seq<T::V>, x: T::V) -> int
    decreases s.len(),
{
    if s.len() == 0 || T::rank(s.last()) <= T::rank(x) {
        s.len() as int
    } else {
        rank_place::<T>(s.drop_last(), x)
    }
}

/// `s` put in order by number, values with the same number as they came.
pub open spec fn ranked<T: Ranked>(s: Seq<T::V>) -> Seq<T::V>
    decreases s.len(),
{
    if s.len() == 0 {
        s
    } else {
        let rest = ranked::<T>(s.drop_last());
        rest.insert(rank_place::<T>(rest, s.last()), s.last())
    }
}

/// Whether the numbers of `s` never go down.
pub open spec fn by_rank<T: Ranked>(s: Seq<T::V>) -> bool {
    forall|i: int, j: int|
        #![trigger s[i], s[j]]
        0 <= i < j < s.len() ==> T::rank(s[i]) <= T::rank(s[j])
}

proof fn lemma_rank_place<T: Ranked>(s: Seq<T::V>, x: T::V)
    requires
        by_rank::<T>(s),
    ensures
        0 <= rank_place::<T>(s, x) <= s.len(),
        by_rank::<T>(s.insert(rank_place::<T>(s, x), x)),
        forall|i: int| 0 <= i < rank_place::<T>(s, x) ==> T::rank(#[trigger] s[i]) <= T::rank(x),
        forall|i: int|
            rank_place::<T>(s, x) <= i < s.len() ==> T::rank(x) < T::rank(#[trigger] s[i]),
    decreases s.len(),
{
    let p = rank_place::<T>(s, x);
    if s.len() > 0 && T::rank(s.last()) > T::rank(x) {
        let front = s.drop_last();
        assert(by_rank::<T>(front)) by {
            assert forall|i: int, j: int|
                #![trigger front[i], front[j]]
                0 <= i < j < front.len() implies T::rank(front[i]) <= T::rank(front[j]) by {
                assert(T::rank(s[i]) <= T::rank(s[j]));
            }
        }
        lemma_rank_place::<T>(front, x);
        assert forall|i: int| 0 <= i < p implies T::rank(#[trigger] s[i]) <= T::rank(x) by {
            assert(front[i] == s[i]);
        }
        assert forall|i: int| p <= i < s.len() implies T::rank(x) < T::rank(#[trigger] s[i]) by {
            if i < front.len() {
                assert(front[i] == s[i]);
            }
        }
    } else if s.len() > 0 {
        assert forall|i: int| 0 <= i < p implies T::rank(#[trigger] s[i]) <= T::rank(x) by {
            if i < s.len() - 1 {
                assert(T::rank(s[i]) <= T::rank(s[s.len() - 1]));
            }
        }
    }
    let t = s.insert(p, x);
    assert forall|i: int, j: int|
        #![trigger t[i], t[j]]
        0 <= i < j < t.len() implies T::rank(t[i]) <= T::rank(t[j]) by {
        if i < p {
            assert(t[i] == s[i]);
        } else if i > p {
            assert(t[i] == s[i - 1]);
        }
        if j < p {
            assert(t[j] == s[j]);
        } else if j > p {
            assert(t[j] == s[j - 1]);
        }
    }
}

/// Putting values in order by number loses and adds nothing, and its result is in order.
pub proof fn lemma_ranked<T: Ranked>(s: Seq<T::V>)
    ensures
        ranked::<T>(s).len() == s.len(),
        ranked::<T>(s).to_multiset() == s.to_multiset(),
        by_rank::<T>(ranked::<T>(s)),
    decreases s.len(),
{
    broadcast use vstd::seq_lib::group_to_multiset_ensures;

    if s.len() > 0 {
        let rest = ranked::<T>(s.drop_last());
        lemma_ranked::<T>(s.drop_last());
        lemma_rank_place::<T>(rest, s.last());
        assert(s =~= s.drop_last().push(s.last()));
    }
}

/// Puts `v` in order by number, values with the same number as they came.
pub fn sort_by_rank<T: Ranked>(v: Vec<T>) -> (r: Vec<T>)
    ensures
        views(r@) == ranked::<T>(views(v@)),
{
    let ghost all = v@;
    let mut out: Vec<T> = Vec::new();
    assert(views(all.take(0)) =~= seq![]);
    assert(views(out@) =~= seq![]);
    for x in it: v
        invariant
            it.seq() == all,
            views(out@) == ranked::<T>(views(all.take(it.index()))),
    {
        let ghost done = views(all.take(it.index()));
        let ghost before = out@;
        proof {
            let next = views(all.take(it.index() + 1));
            assert(next.drop_last() =~= done);
            assert(next.last() == x@);
            assert(views(before).take(before.len() as int) =~= views(before));
            lemma_ranked::<T>(done);
            lemma_rank_place::<T>(views(before), x@);
        }
        let mut k: usize = out.len();
        while k > 0 && out[k - 1].rank_of() > x.rank_of()
            invariant
                out@ == before,
                k <= out@.len(),
                rank_place::<T>(views(before), x@) == rank_place::<T>(
                    views(before).take(k as int),
                    x@,
                ),
            decreases k,
        {
            assert(views(before).take(k as int).last() == before[k - 1]@);
            assert(views(before).take(k as int).drop_last() =~= views(before).take(k - 1));
            k -= 1;
        }
        proof {
            if k > 0 {
                assert(views(before).take(k as int).last() == before[k - 1]@);
            }
        }
        let ghost what = x@;
        out.insert(k, x);
        assert(views(out@) =~= views(before).insert(k as int, what));
    }
    assert(all.take(all.len() as int) =~= all);
    out
}

/// What two sequences hold together is what either of them holds.
pub proof fn lemma_contained_in_either<A>(a: Seq<A>, b: Seq<A>, x: A)
    ensures
        (a + b).contains(x) <==> a.contains(x) || b.contains(x),
{
    let all = a + b;
    if a.contains(x) {
        let k = choose|k: int| 0 <= k < a.len() && a[k] == x;
        assert(all[k] == x);
    }
    if b.contains(x) {
        let k = choose|k: int| 0 <= k < b.len() && b[k] == x;
        assert(all[a.len() + k] == x);
    }
    if all.contains(x) {
        let k = choose|k: int| 0 <= k < all.len() && all[k] == x;
        if k < a.len() {
            assert(a[k] == x);
        } else {
            assert(b[k - a.len()] == x);
        }
    }
}

/// A text comes before another exactly if it is a proper prefix of it, or has the smaller
/// character at the first place where they differ.
pub proof fn law_texts_are_ordered_by_the_first_difference(a: Seq<char>, b: Seq<char>)
    ensures
        text_lt(a, b) <==> exists|k: int|
            0 <= k <= a.len() && k < b.len() && #[trigger] a.take(k) == b.take(k) && (k == a.len()
                || (a[k] as int) < (b[k] as int)),
    decreases a.len(),
{
    if b.len() > 0 && a.len() == 0 {
        assert(a.take(0) =~= b.take(0));
    }
    if b.len() > 0 && a.len() > 0 {
        let x = a.skip(1);
        let y = b.skip(1);
        if a[0] != b[0] {
            if (a[0] as int) < (b[0] as int) {
                assert(a.take(0) =~= b.take(0));
            }
            if exists|k: int|
                0 <= k <= a.len() && k < b.len() && #[trigger] a.take(k) == b.take(k) && (k
                    == a.len() || (a[k] as int) < (b[k] as int)) {
                let k = choose|k: int|
                    0 <= k <= a.len() && k < b.len() && #[trigger] a.take(k) == b.take(k) && (k
                        == a.len() || (a[k] as int) < (b[k] as int));
                if k > 0 {
                    assert(a.take(k)[0] == b.take(k)[0]);
                }
            }
        } else {
            law_texts_are_ordered_by_the_first_difference(x, y);
            if text_lt(x, y) {
                let k = choose|k: int|
                    0 <= k <= x.len() && k < y.len() && #[trigger] x.take(k) == y.take(k) && (k
                        == x.len() || (x[k] as int) < (y[k] as int));
                assert(a.take(k + 1) =~= seq![a[0]] + x.take(k));
                assert(b.take(k + 1) =~= seq![b[0]] + y.take(k));
                assert(a.take(k + 1) == b.take(k + 1));
            }
            if exists|k: int|
                0 <= k <= a.len() && k < b.len() && #[trigger] a.take(k) == b.take(k) && (k
                    == a.len() || (a[k] as int) < (b[k] as int)) {
                let k = choose|k: int|
                    0 <= k <= a.len() && k < b.len() && #[trigger] a.take(k) == b.take(k) && (k
                        == a.len() || (a[k] as int) < (b[k] as int));
                assert(k > 0);
                assert(x.take(k - 1) =~= a.take(k).skip(1));
                assert(y.take(k - 1) =~= b.take(k).skip(1));
                assert(x.take(k - 1) == y.take(k - 1));
            }
        }
    }
}

proof fn lemma_filter_inserted<A>(s: Seq<A>, k: int, x: A, f: spec_fn(A) -> bool)
    requires
        0 <= k <= s.len(),
        forall|i: int| k <= i < s.len() && f(x) ==> !f(#[trigger] s[i]),
    ensures
        s.insert(k, x).filter(f) == (if f(x) {
            s.filter(f).push(x)
        } else {
            s.filter(f)
        }),
{
    let a = s.take(k);
    let b = s.skip(k);
    Seq::filter_distributes_over_add(a, b, f);
    Seq::filter_distributes_over_add(a, seq![x], f);
    Seq::filter_distributes_over_add(a + seq![x], b, f);
    assert(s =~= a + b);
    assert(s.insert(k, x) =~= a + seq![x] + b);
    reveal(Seq::filter);
    assert(seq![x].drop_last().filter(f) =~= seq![]);
    assert(seq![x].filter(f) =~= (if f(x) {
        seq![x]
    } else {
        seq![]
    }));
    if f(x) {
        lemma_filter_none(b, f);
        assert((a.filter(f) + seq![x]) + b.filter(f) =~= (a.filter(f) + b.filter(f)).push(x));
    } else {
        assert((a.filter(f) + seq![]) + b.filter(f) =~= a.filter(f) + b.filter(f));
    }
}

proof fn lemma_filter_none<A>(s: Seq<A>, f: spec_fn(A) -> bool)
    requires
        forall|i: int| 0 <= i < s.len() ==> !f(#[trigger] s[i]),
    ensures
        s.filter(f) == Seq::<A>::empty(),
    decreases s.len(),
{
    reveal(Seq::filter);
    if s.len() > 0 {
        assert(!f(s[s.len() - 1]));
        lemma_filter_none(s.drop_last(), f);
    }
}

/// Sorting leaves values with the same key in the order in which they came.
pub proof fn law_sorting_keeps_the_order_of_equals<T: Sortable>(s: Seq<T::V>, key: Seq<Seq<char>>)
    ensures
        sorted::<T>(s).filter(|v: T::V| T::sort_key(v) == key) == s.filter(
            |v: T::V| T::sort_key(v) == key,
        ),
    decreases s.len(),
{
    let f = |v: T::V| T::sort_key(v) == key;
    if s.len() > 0 {
        let front = s.drop_last();
        let x = s.last();
        let rest = sorted::<T>(front);
        law_sorting_keeps_the_order_of_equals::<T>(front, key);
        lemma_sorted::<T>(front);
        lemma_insert_at::<T>(rest, x);
        let k = insert_at::<T>(rest, x);
        assert forall|i: int| k <= i < rest.len() && f(x) implies !f(#[trigger] rest[i]) by {
            lemma_key_total(T::sort_key(rest[i]), T::sort_key(x));
        }
        lemma_filter_inserted(rest, k, x, f);
        reveal(Seq::filter);
    }
}

/// Putting values in order by number leaves those with the same number in the order in which
/// they came.
pub proof fn law_ranking_keeps_the_order_of_equals<T: Ranked>(s: Seq<T::V>, number: u64)
    ensures
        ranked::<T>(s).filter(|v: T::V| T::rank(v) == number) == s.filter(
            |v: T::V| T::rank(v) == number,
        ),
    decreases s.len(),
{
    let f = |v: T::V| T::rank(v) == number;
    if s.len() > 0 {
        let front = s.drop_last();
        let x = s.last();
        let rest = ranked::<T>(front);
        law_ranking_keeps_the_order_of_equals::<T>(front, number);
        lemma_ranked::<T>(front);
        lemma_rank_place::<T>(rest, x);
        lemma_filter_inserted(rest, rank_place::<T>(rest, x), x, f);
        reveal(Seq::filter);
    }
}

} // verus!
