//! Merging two rankings into one by the ranks that an item has in each.

use vstd::prelude::*;

use crate::order::{
    lemma_sorted_set, lemma_text_total, rank_place, ranked, sort_and_dedup, sort_by_rank, text_lt,
    Ranked,
};
use crate::text::{text_eq, views};

verus! {

/// The ranks of `item` in `list`, counted from one.
pub open spec fn ranks_in(list: Seq<Seq<char>>, item: Seq<char>) -> Seq<usize>
    decreases list.len(),
{
    if list.len() == 0 {
        seq![]
    } else {
        let rest = ranks_in(list.drop_last(), item);
        if list.last() == item {
            rest.push(list.len() as usize)
        } else {
            rest
        }
    }
}

fn add_ranks(out: &mut Vec<usize>, list: &Vec<String>, item: &str)
    ensures
        final(out)@ == old(out)@ + ranks_in(views(list@), item@),
{
    let ghost before = out@;
    let ghost all = views(list@);
    let mut i: usize = 0;
    assert(all.take(0) =~= seq![]);
    assert(before + ranks_in(all.take(0), item@) =~= before);
    while i < list.len()
        invariant
            all == views(list@),
            i <= list@.len(),
            out@ == before + ranks_in(all.take(i as int), item@),
        decreases list@.len() - i,
    {
        let ghost now = all.take(i + 1);
        proof {
            assert(now.drop_last() =~= all.take(i as int));
            assert(now.last() == list@[i as int]@);
        }
        let found = text_eq(list[i].as_str(), item);
        i += 1;
        if found {
            out.push(i);
            assert(out@ =~= before + ranks_in(now, item@));
        }
    }
    assert(all.take(all.len() as int) =~= all);
}

/// Whether `bits` is what `score` gives for an item with these ranks.
pub open spec fn is_score<F: Fn(&Vec<usize>) -> u64>(
    score: F,
    ranks: Seq<usize>,
    bits: u64,
) -> bool {
    exists|given: Vec<usize>| given@ == ranks && call_ensures(score, (&given,), bits)
}

/// Whether `a` comes before `b` in a merged ranking: by the higher score, and with the
/// same score by the item.
pub open spec fn better(a: (Seq<char>, u64), b: (Seq<char>, u64)) -> bool {
    a.1 > b.1 || (a.1 == b.1 && text_lt(a.0, b.0))
}

impl Ranked for (String, u64) {
    open spec fn rank(v: (Seq<char>, u64)) -> u64 {
        (u64::MAX - v.1) as u64
    }

    fn rank_of(&self) -> (r: u64) {
        u64::MAX - self.1
    }
}

spec fn by_item(s: Seq<(Seq<char>, u64)>) -> bool {
    forall|i: int, j: int|
        #![trigger s[i], s[j]]
        0 <= i < j < s.len() ==> text_lt(s[i].0, s[j].0)
}

spec fn best_first(s: Seq<(Seq<char>, u64)>) -> bool {
    forall|i: int, j: int|
        #![trigger s[i], s[j]]
        0 <= i < j < s.len() ==> better(s[i], s[j])
}

spec fn each_once(s: Seq<(Seq<char>, u64)>) -> bool {
    forall|i: int, j: int|
        #![trigger s[i], s[j]]
        0 <= i < j < s.len() ==> s[i].0 != s[j].0
}

proof fn lemma_rank_place_of(s: Seq<(Seq<char>, u64)>, x: (Seq<char>, u64))
    requires
        best_first(s),
    ensures
        0 <= rank_place::<(String, u64)>(s, x) <= s.len(),
        forall|i: int|
            0 <= i < rank_place::<(String, u64)>(s, x) ==> (#[trigger] s[i]).1 >= x.1,
        forall|i: int|
            rank_place::<(String, u64)>(s, x) <= i < s.len() ==> (#[trigger] s[i]).1 < x.1,
    decreases s.len(),
{
    let p = rank_place::<(String, u64)>(s, x);
    if s.len() > 0 {
        let front = s.drop_last();
        assert(best_first(front)) by {
            assert forall|i: int, j: int|
                #![trigger front[i], front[j]]
                0 <= i < j < front.len() implies better(front[i], front[j]) by {
                assert(better(s[i], s[j]));
            }
        }
        lemma_rank_place_of(front, x);
        assert forall|i: int| 0 <= i < p implies (#[trigger] s[i]).1 >= x.1 by {
            if s.last().1 < x.1 {
                assert(front[i] == s[i]);
            } else if i < s.len() - 1 {
                assert(better(s[i], s[s.len() - 1]));
            }
        }
        assert forall|i: int| p <= i < s.len() implies (#[trigger] s[i]).1 < x.1 by {
            if i < front.len() {
                assert(front[i] == s[i]);
            }
        }
    }
}

/// Items that come in their own order and are put in order by their scores stay in their
/// own order where the scores are the same.
proof fn lemma_best_first(s: Seq<(Seq<char>, u64)>)
    requires
        by_item(s),
    ensures
        best_first(ranked::<(String, u64)>(s)),
        each_once(ranked::<(String, u64)>(s)),
        forall|x: (Seq<char>, u64)| #[trigger]
            ranked::<(String, u64)>(s).contains(x) <==> s.contains(x),
    decreases s.len(),
{
    if s.len() > 0 {
        let front = s.drop_last();
        let x = s.last();
        assert(by_item(front)) by {
            assert forall|i: int, j: int|
                #![trigger front[i], front[j]]
                0 <= i < j < front.len() implies text_lt(front[i].0, front[j].0) by {
                assert(text_lt(s[i].0, s[j].0));
            }
        }
        lemma_best_first(front);
        let rest = ranked::<(String, u64)>(front);
        lemma_rank_place_of(rest, x);
        let p = rank_place::<(String, u64)>(rest, x);
        let t = rest.insert(p, x);
        assert forall|i: int| 0 <= i < rest.len() implies text_lt((#[trigger] rest[i]).0, x.0) by {
            assert(rest.contains(rest[i]));
            assert(front.contains(rest[i]));
            let k = choose|k: int| 0 <= k < front.len() && front[k] == rest[i];
            assert(text_lt(s[k].0, s[s.len() - 1].0));
        }
        lemma_text_total(x.0, x.0);
        assert forall|i: int, j: int|
            #![trigger t[i], t[j]]
            0 <= i < j < t.len() implies better(t[i], t[j]) && t[i].0 != t[j].0 by {
            if i < p {
                assert(t[i] == rest[i]);
            } else if i > p {
                assert(t[i] == rest[i - 1]);
            }
            if j < p {
                assert(t[j] == rest[j]);
            } else if j > p {
                assert(t[j] == rest[j - 1]);
            }
        }
        assert forall|y: (Seq<char>, u64)| #[trigger] t.contains(y) <==> s.contains(y) by {
            if t.contains(y) {
                let k = choose|k: int| 0 <= k < t.len() && t[k] == y;
                if k == p {
                    assert(s[s.len() - 1] == y);
                } else {
                    let m = if k < p {
                        k
                    } else {
                        k - 1
                    };
                    assert(rest[m] == y);
                    assert(rest.contains(y));
                    let n = choose|n: int| 0 <= n < front.len() && front[n] == y;
                    assert(s[n] == y);
                }
            }
            if s.contains(y) {
                let k = choose|k: int| 0 <= k < s.len() && s[k] == y;
                if k == s.len() - 1 {
                    assert(t[p] == y);
                } else {
                    assert(front[k] == y);
                    assert(rest.contains(y));
                    let m = choose|m: int| 0 <= m < rest.len() && rest[m] == y;
                    assert(t[if m < p {
                        m
                    } else {
                        m + 1
                    }] == y);
                }
            }
        }
    }
}

/// Whether `r` is what two rankings are merged into: every item of either, each once and
/// with its score, the best first.
pub open spec fn is_merged<F: Fn(&Vec<usize>) -> u64>(
    r: Seq<(String, u64)>,
    bm25: Seq<Seq<char>>,
    vector: Seq<Seq<char>>,
    score: F,
) -> bool {
    &&& forall|i: int|
        0 <= i < r.len() ==> {
            &&& bm25.contains((#[trigger] r[i]).0@) || vector.contains(r[i].0@)
            &&& is_score(score, ranks_in(bm25, r[i].0@) + ranks_in(vector, r[i].0@), r[i].1)
        }
    &&& forall|item: Seq<char>|
        bm25.contains(item) || vector.contains(item) ==> exists|i: int|
            0 <= i < r.len() && (#[trigger] r[i]).0@ == item
    &&& forall|i: int, j: int|
        #![trigger r[i], r[j]]
        0 <= i < j < r.len() ==> better(r[i]@, r[j]@) && r[i].0@ != r[j].0@
}

/// Merges two rankings. An item's score is what `score` makes of its ranks, first those
/// in `bm25` and then those in `vector`: the bits of a number that is not negative, which
/// are ordered as the numbers are. The best comes first; with the same score, the items
/// are in their own order.
pub fn rrf_merge<F: Fn(&Vec<usize>) -> u64>(
    bm25: &Vec<String>,
    vector: &Vec<String>,
    score: &F,
) -> (r: Vec<(String, u64)>)
    requires
        forall|ranks: Vec<usize>| call_requires(*score, (&ranks,)),
    ensures
        is_merged(r@, views(bm25@), views(vector@), *score),
{
    let ghost both = views(bm25@) + views(vector@);
    let mut items: Vec<String> = Vec::new();
    for item in it: bm25
        invariant
            it.seq().len() == bm25@.len(),
            forall|j: int| 0 <= j < bm25@.len() ==> *(#[trigger] it.seq()[j]) == bm25@[j],
            views(items@) == views(bm25@).take(it.index()),
    {
        let ghost before = items@;
        items.push(item.clone());
        assert(views(items@) =~= views(before).push(item@));
        assert(views(items@) =~= views(bm25@).take(it.index() + 1));
    }
    assert(views(items@) =~= views(bm25@));
    for item in it: vector
        invariant
            it.seq().len() == vector@.len(),
            forall|j: int| 0 <= j < vector@.len() ==> *(#[trigger] it.seq()[j]) == vector@[j],
            views(items@) == views(bm25@) + views(vector@).take(it.index()),
    {
        let ghost before = items@;
        items.push(item.clone());
        assert(views(items@) =~= views(before).push(item@));
        assert(views(items@) =~= views(bm25@) + views(vector@).take(it.index() + 1));
    }
    assert(views(items@) =~= both);
    let items = sort_and_dedup(items);
    let mut scored: Vec<(String, u64)> = Vec::new();
    let mut i: usize = 0;
    while i < items.len()
        invariant
            forall|ranks: Vec<usize>| call_requires(*score, (&ranks,)),
            i <= items@.len(),
            scored@.len() == i,
            forall|j: int|
                0 <= j < i ==> {
                    &&& (#[trigger] scored@[j]).0@ == items@[j]@
                    &&& is_score(
                        *score,
                        ranks_in(views(bm25@), items@[j]@) + ranks_in(views(vector@), items@[j]@),
                        scored@[j].1,
                    )
                },
        decreases items@.len() - i,
    {
        let mut ranks: Vec<usize> = Vec::new();
        add_ranks(&mut ranks, bm25, items[i].as_str());
        add_ranks(&mut ranks, vector, items[i].as_str());
        assert(ranks@ =~= ranks_in(views(bm25@), items@[i as int]@) + ranks_in(
            views(vector@),
            items@[i as int]@,
        ));
        let bits: u64 = score(&ranks);
        scored.push((items[i].clone(), bits));
        i += 1;
    }
    let ghost rows = views(scored@);
    let r = sort_by_rank(scored);
    proof {
        lemma_sorted_set(both, seq![]);
        assert forall|a: int, b: int|
            #![trigger rows[a], rows[b]]
            0 <= a < b < rows.len() implies text_lt(rows[a].0, rows[b].0) by {
            assert(views(items@)[a] == scored@[a].0@);
            assert(views(items@)[b] == scored@[b].0@);
        }
        lemma_best_first(rows);
        assert forall|a: int| 0 <= a < r@.len() implies {
            &&& views(bm25@).contains((#[trigger] r@[a]).0@) || views(vector@).contains(r@[a].0@)
            &&& is_score(
                *score,
                ranks_in(views(bm25@), r@[a].0@) + ranks_in(views(vector@), r@[a].0@),
                r@[a].1,
            )
        } by {
            assert(views(r@)[a] == r@[a]@);
            assert(views(r@).contains(r@[a]@));
            assert(rows.contains(r@[a]@));
            let k = choose|k: int| 0 <= k < rows.len() && rows[k] == r@[a]@;
            assert(scored@[k].0@ == items@[k]@);
            assert(views(items@)[k] == items@[k]@);
            lemma_sorted_set(both, items@[k]@);
            assert(both.contains(items@[k]@));
            let m = choose|m: int| 0 <= m < both.len() && both[m] == items@[k]@;
            if m < views(bm25@).len() {
                assert(views(bm25@)[m] == items@[k]@);
            } else {
                assert(views(vector@)[m - views(bm25@).len()] == items@[k]@);
            }
        }
        assert forall|item: Seq<char>|
            views(bm25@).contains(item) || views(vector@).contains(item) implies exists|a: int|
            0 <= a < r@.len() && (#[trigger] r@[a]).0@ == item by {
            if views(bm25@).contains(item) {
                let m = choose|m: int| 0 <= m < views(bm25@).len() && views(bm25@)[m] == item;
                assert(both[m] == item);
            } else {
                let m = choose|m: int| 0 <= m < views(vector@).len() && views(vector@)[m] == item;
                assert(both[views(bm25@).len() + m] == item);
            }
            lemma_sorted_set(both, item);
            assert(views(items@).contains(item));
            let k = choose|k: int| 0 <= k < views(items@).len() && views(items@)[k] == item;
            assert(scored@[k].0@ == item);
            assert(rows[k] == scored@[k]@);
            assert(rows.contains(rows[k]));
            assert(views(r@).contains(rows[k]));
            let a = choose|a: int| 0 <= a < views(r@).len() && views(r@)[a] == rows[k];
            assert(r@[a]@ == rows[k]);
        }
        assert forall|a: int, b: int|
            #![trigger r@[a], r@[b]]
            0 <= a < b < r@.len() implies better(r@[a]@, r@[b]@) && r@[a].0@ != r@[b].0@ by {
            assert(better(views(r@)[a], views(r@)[b]));
            assert(views(r@)[a].0 != views(r@)[b].0);
        }
    }
    r
}

/// Whether `score` gives one score for the same ranks, in whichever order two ranks come.
pub open spec fn is_symmetric<F: Fn(&Vec<usize>) -> u64>(score: F) -> bool {
    forall|a: Vec<usize>, b: Vec<usize>, x: u64, y: u64|
        #![trigger call_ensures(score, (&a,), x), call_ensures(score, (&b,), y)]
        a@.len() <= 2 && (a@ == b@ || a@ == b@.reverse()) && call_ensures(score, (&a,), x)
            && call_ensures(score, (&b,), y) ==> x == y
}

proof fn lemma_one_rank(list: Seq<Seq<char>>, item: Seq<char>)
    requires
        list.no_duplicates(),
    ensures
        ranks_in(list, item).len() <= 1,
        !list.contains(item) ==> ranks_in(list, item).len() == 0,
    decreases list.len(),
{
    if list.len() > 0 {
        let front = list.drop_last();
        assert(front.no_duplicates()) by {
            assert forall|i: int, j: int|
                0 <= i < front.len() && 0 <= j < front.len() && i != j implies front[i]
                != front[j] by {
                assert(list[i] != list[j]);
            }
        }
        lemma_one_rank(front, item);
        if list.last() == item {
            assert(list[list.len() - 1] == item);
            if front.contains(item) {
                let k = choose|k: int| 0 <= k < front.len() && front[k] == item;
                assert(list[k] == item);
            }
        } else if front.contains(item) {
            let k = choose|k: int| 0 <= k < front.len() && front[k] == item;
            assert(list[k] == item);
        }
    }
}

/// Rankings of the same items with the same scores are the same.
proof fn lemma_one_ranking(a: Seq<(Seq<char>, u64)>, b: Seq<(Seq<char>, u64)>)
    requires
        best_first(a),
        best_first(b),
        forall|x: (Seq<char>, u64)| #[trigger] a.contains(x) <==> b.contains(x),
    ensures
        a == b,
    decreases a.len(),
{
    if a.len() == 0 {
        if b.len() > 0 {
            assert(b.contains(b[0]));
            assert(a.contains(b[0]));
        }
        assert(a =~= b);
    } else {
        assert(a.contains(a[0]));
        assert(b.contains(a[0]));
        let j = choose|j: int| 0 <= j < b.len() && b[j] == a[0];
        assert(b.contains(b[0]));
        assert(a.contains(b[0]));
        let i = choose|i: int| 0 <= i < a.len() && a[i] == b[0];
        lemma_text_total(a[0].0, b[0].0);
        if i > 0 && j > 0 {
            assert(better(a[0], a[i]));
            assert(better(b[0], b[j]));
        }
        assert(a[0] == b[0]);
        let p = a.skip(1);
        let q = b.skip(1);
        assert forall|k: int, l: int|
            #![trigger p[k], p[l]]
            0 <= k < l < p.len() implies better(p[k], p[l]) by {
            assert(better(a[k + 1], a[l + 1]));
        }
        assert forall|k: int, l: int|
            #![trigger q[k], q[l]]
            0 <= k < l < q.len() implies better(q[k], q[l]) by {
            assert(better(b[k + 1], b[l + 1]));
        }
        lemma_text_total(a[0].0, a[0].0);
        assert forall|x: (Seq<char>, u64)| #[trigger] p.contains(x) <==> q.contains(x) by {
            if p.contains(x) {
                let k = choose|k: int| 0 <= k < p.len() && p[k] == x;
                assert(a[k + 1] == x);
                assert(better(a[0], a[k + 1]));
                assert(a.contains(x));
                assert(b.contains(x));
                let l = choose|l: int| 0 <= l < b.len() && b[l] == x;
                assert(q[l - 1] == x);
            }
            if q.contains(x) {
                let k = choose|k: int| 0 <= k < q.len() && q[k] == x;
                assert(b[k + 1] == x);
                assert(better(b[0], b[k + 1]));
                assert(b.contains(x));
                assert(a.contains(x));
                let l = choose|l: int| 0 <= l < a.len() && a[l] == x;
                assert(p[l - 1] == x);
            }
        }
        lemma_one_ranking(p, q);
        assert forall|k: int| 0 <= k < a.len() implies k < b.len() && a[k] == b[k] by {
            if k > 0 {
                assert(p[k - 1] == q[k - 1]);
            }
        }
        assert(a.len() == b.len());
        assert(a =~= b);
    }
}

proof fn lemma_exchanged_within<F: Fn(&Vec<usize>) -> u64>(
    r: Seq<(String, u64)>,
    s: Seq<(String, u64)>,
    bm25: Seq<Seq<char>>,
    vector: Seq<Seq<char>>,
    score: F,
    x: (Seq<char>, u64),
)
    requires
        is_symmetric(score),
        bm25.no_duplicates(),
        vector.no_duplicates(),
        is_merged(r, bm25, vector, score),
        is_merged(s, vector, bm25, score),
        views(r).contains(x),
    ensures
        views(s).contains(x),
{
    let i = choose|i: int| 0 <= i < views(r).len() && views(r)[i] == x;
    let item = r[i].0@;
    assert(r[i]@ == x);
    assert(bm25.contains(item) || vector.contains(item));
    let j = choose|j: int| 0 <= j < s.len() && (#[trigger] s[j]).0@ == item;
    lemma_one_rank(bm25, item);
    lemma_one_rank(vector, item);
    let here = ranks_in(bm25, item) + ranks_in(vector, item);
    let there = ranks_in(vector, item) + ranks_in(bm25, item);
    assert(is_score(score, here, r[i].1));
    assert(is_score(score, there, s[j].1));
    let a = choose|a: Vec<usize>| a@ == here && call_ensures(score, (&a,), r[i].1);
    let b = choose|b: Vec<usize>| b@ == there && call_ensures(score, (&b,), s[j].1);
    if ranks_in(bm25, item).len() == 1 && ranks_in(vector, item).len() == 1 {
        assert(here =~= there.reverse());
    } else {
        assert(here =~= there);
    }
    assert(r[i].1 == s[j].1);
    assert(views(s)[j] == x);
}

/// The two rankings may be exchanged: where neither holds an item twice and the score
/// does not depend on the order of two ranks, the outcome is the same.
pub proof fn law_rankings_may_be_exchanged<F: Fn(&Vec<usize>) -> u64>(
    r: Seq<(String, u64)>,
    s: Seq<(String, u64)>,
    bm25: Seq<Seq<char>>,
    vector: Seq<Seq<char>>,
    score: F,
)
    requires
        is_symmetric(score),
        bm25.no_duplicates(),
        vector.no_duplicates(),
        is_merged(r, bm25, vector, score),
        is_merged(s, vector, bm25, score),
    ensures
        views(r) == views(s),
{
    assert forall|x: (Seq<char>, u64)| #[trigger] views(r).contains(x) <==> views(s).contains(
        x,
    ) by {
        if views(r).contains(x) {
            lemma_exchanged_within(r, s, bm25, vector, score, x);
        }
        if views(s).contains(x) {
            lemma_exchanged_within(s, r, vector, bm25, score, x);
        }
    }
    assert(best_first(views(r))) by {
        assert forall|i: int, j: int|
            #![trigger views(r)[i], views(r)[j]]
            0 <= i < j < r.len() implies better(views(r)[i], views(r)[j]) by {
            assert(better(r[i]@, r[j]@));
        }
    }
    assert(best_first(views(s))) by {
        assert forall|i: int, j: int|
            #![trigger views(s)[i], views(s)[j]]
            0 <= i < j < s.len() implies better(views(s)[i], views(s)[j]) by {
            assert(better(s[i]@, s[j]@));
        }
    }
    lemma_one_ranking(views(r), views(s));
}

/// The ranks of an item are all places at which it stands, counted from one, going up.
pub proof fn law_ranks_are_the_places_of_an_item(
    list: Seq<Seq<char>>,
    item: Seq<char>,
    rank: usize,
)
    requires
        list.len() <= usize::MAX,
    ensures
        ranks_in(list, item).contains(rank) <==> 1 <= rank <= list.len() && list[rank - 1] == item,
        forall|i: int, j: int|
            #![trigger ranks_in(list, item)[i], ranks_in(list, item)[j]]
            0 <= i < j < ranks_in(list, item).len() ==> ranks_in(list, item)[i] < ranks_in(
                list,
                item,
            )[j],
        forall|i: int|
            0 <= i < ranks_in(list, item).len() ==> (#[trigger] ranks_in(list, item)[i])
                <= list.len(),
    decreases list.len(),
{
    if list.len() > 0 {
        let front = list.drop_last();
        let rest = ranks_in(front, item);
        let all = ranks_in(list, item);
        law_ranks_are_the_places_of_an_item(front, item, rank);
        if rest.contains(rank) {
            let k = choose|k: int| 0 <= k < rest.len() && rest[k] == rank;
            assert(all[k] == rank);
            assert(list[rank - 1] == front[rank - 1]);
        }
        if all.contains(rank) && !rest.contains(rank) {
            let k = choose|k: int| 0 <= k < all.len() && all[k] == rank;
            if k < rest.len() {
                assert(rest[k] == rank);
            }
        }
        if 1 <= rank <= list.len() && list[rank - 1] == item {
            if rank <= front.len() {
                assert(front[rank - 1] == item);
            } else {
                assert(all[rest.len() as int] == rank);
            }
        }
        assert forall|i: int, j: int|
            #![trigger all[i], all[j]]
            0 <= i < j < all.len() implies all[i] < all[j] by {
            assert(all[i] == rest[i]);
            if j < rest.len() {
                assert(all[j] == rest[j]);
            }
        }
        assert forall|i: int| 0 <= i < all.len() implies (#[trigger] all[i]) <= list.len() by {
            if i < rest.len() {
                assert(all[i] == rest[i]);
            }
        }
    }
}

/// Every item of either ranking is in the merged one, once, and nothing else is; a better
/// score comes first, and with the same score the items are in their own order.
pub proof fn law_better_scores_come_first<F: Fn(&Vec<usize>) -> u64>(
    r: Seq<(String, u64)>,
    bm25: Seq<Seq<char>>,
    vector: Seq<Seq<char>>,
    score: F,
    item: Seq<char>,
    i: int,
    j: int,
)
    requires
        is_merged(r, bm25, vector, score),
        0 <= i < r.len(),
    ensures
        i < j < r.len() ==> r[i].1 >= r[j].1 && r[i].0@ != r[j].0@,
        i < j < r.len() && r[i].1 == r[j].1 ==> text_lt(r[i].0@, r[j].0@),
        (exists|k: int| 0 <= k < r.len() && (#[trigger] r[k]).0@ == item) <==> bm25.contains(item)
            || vector.contains(item),
        exists|ranks: Vec<usize>|
            ranks@ == ranks_in(bm25, r[i].0@) + ranks_in(vector, r[i].0@) && #[trigger]
            call_ensures(score, (&ranks,), r[i].1),
{
    if i < j < r.len() {
        assert(better(r[i]@, r[j]@));
    }
    assert(is_score(score, ranks_in(bm25, r[i].0@) + ranks_in(vector, r[i].0@), r[i].1));
    let ranks = choose|given: Vec<usize>|
        given@ == ranks_in(bm25, r[i].0@) + ranks_in(vector, r[i].0@) && call_ensures(
            score,
            (&given,),
            r[i].1,
        );
    assert(call_ensures(score, (&ranks,), r[i].1));
}

} // verus!
