//! Rankings: players ordered by score, highest first, ties kept in room order.
use vstd::prelude::*;
use crate::types::SnakeView;

verus! {

/// Each snake's id with its score, in room order.
pub open spec fn score_pairs(snakes: Seq<SnakeView>) -> Seq<(usize, u32)> {
    snakes.map_values(|s: SnakeView| (s.id, s.score))
}

/// Where an entry with `score` goes in `s`: before the first entry that scored less.
pub open spec fn insert_point(s: Seq<(usize, u32)>, score: u32) -> nat
    decreases s.len(),
{
    if s.len() == 0 {
        0
    } else if s[0].1 < score {
        0
    } else {
        1 + insert_point(s.drop_first(), score)
    }
}

/// The entries of `s` ordered by score, highest first; entries with equal scores keep their
/// order in `s`. Each entry is placed after every earlier one that scored as much or more.
pub open spec fn ranked(s: Seq<(usize, u32)>) -> Seq<(usize, u32)>
    decreases s.len(),
{
    if s.len() == 0 {
        Seq::empty()
    } else {
        let r = ranked(s.drop_last());
        r.insert(insert_point(r, s.last().1) as int, s.last())
    }
}

/// Scores never rise along `s`.
pub open spec fn descending(s: Seq<(usize, u32)>) -> bool {
    forall|i: int, j: int| 0 <= i < j < s.len() ==> s[i].1 >= s[j].1
}

proof fn lemma_insert_point(s: Seq<(usize, u32)>, score: u32, k: int)
    requires
        0 <= k <= s.len(),
        forall|j: int| 0 <= j < k ==> s[j].1 >= score,
        k == s.len() || s[k].1 < score,
    ensures
        insert_point(s, score) == k,
    decreases k,
{
    if k > 0 {
        assert forall|j: int| 0 <= j < k - 1 implies s.drop_first()[j].1 >= score by {
            assert(s.drop_first()[j] == s[j + 1]);
        }
        if k < s.len() {
            assert(s.drop_first()[k - 1] == s[k]);
        }
        lemma_insert_point(s.drop_first(), score, k - 1);
    }
}

proof fn lemma_insert_point_bounds(s: Seq<(usize, u32)>, score: u32)
    ensures
        insert_point(s, score) <= s.len(),
        forall|j: int| 0 <= j < insert_point(s, score) ==> s[j].1 >= score,
        insert_point(s, score) == s.len() || s[insert_point(s, score) as int].1 < score,
    decreases s.len(),
{
    if s.len() > 0 && s[0].1 >= score {
        lemma_insert_point_bounds(s.drop_first(), score);
        let k = insert_point(s, score) as int;
        assert forall|j: int| 0 <= j < k implies s[j].1 >= score by {
            if j > 0 {
                assert(s[j] == s.drop_first()[j - 1]);
            }
        }
        if k < s.len() {
            assert(s[k] == s.drop_first()[k - 1]);
        }
    }
}

/// Rankings list scores from highest to lowest.
pub proof fn lemma_ranked_descending(s: Seq<(usize, u32)>)
    ensures
        descending(ranked(s)),
        ranked(s).len() == s.len(),
    decreases s.len(),
{
    if s.len() > 0 {
        let r = ranked(s.drop_last());
        lemma_ranked_descending(s.drop_last());
        let x = s.last();
        lemma_insert_point_bounds(r, x.1);
        let k = insert_point(r, x.1) as int;
        let t = r.insert(k, x);
        assert forall|i: int, j: int| 0 <= i < j < t.len() implies t[i].1 >= t[j].1 by {
            if j < k {
            } else if j == k {
                assert(t[i] == r[i]);
            } else if i < k {
                assert(t[i] == r[i]);
                assert(t[j] == r[j - 1]);
            } else if i == k {
                assert(t[j] == r[j - 1]);
                assert(r[k].1 < x.1);
                if j - 1 > k {
                    assert(r[k].1 >= r[j - 1].1);
                }
            } else {
                assert(t[i] == r[i - 1]);
                assert(t[j] == r[j - 1]);
            }
        }
    }
}

/// Rankings hold exactly the entries ranked, each as often as it occurs.
pub proof fn lemma_ranked_permutation(s: Seq<(usize, u32)>)
    ensures
        ranked(s).to_multiset() == s.to_multiset(),
    decreases s.len(),
{
    if s.len() == 0 {
        assert(s =~= Seq::<(usize, u32)>::empty());
    } else {
        let init = s.drop_last();
        lemma_ranked_permutation(init);
        let r = ranked(init);
        lemma_ranked_descending(init);
        lemma_insert_point_bounds(r, s.last().1);
        assert(s == init.push(s.last()));
        vstd::seq_lib::to_multiset_insert(r, insert_point(r, s.last().1) as int, s.last());
        vstd::seq_lib::to_multiset_build(init, s.last());
        assert(ranked(s) == r.insert(insert_point(r, s.last().1) as int, s.last()));
    }
}

/// The entries of `s` that scored `v`, in order.
pub open spec fn scoring(s: Seq<(usize, u32)>, v: u32) -> Seq<(usize, u32)> {
    s.filter(scored(v))
}

/// An entry scored `v`.
pub open spec fn scored(v: u32) -> spec_fn((usize, u32)) -> bool {
    |e: (usize, u32)| e.1 == v
}

proof fn lemma_scoring_none(s: Seq<(usize, u32)>, v: u32)
    requires
        forall|i: int| 0 <= i < s.len() ==> s[i].1 != v,
    ensures
        scoring(s, v) == Seq::<(usize, u32)>::empty(),
    decreases s.len(),
{
    reveal(Seq::filter);
    if s.len() > 0 {
        assert forall|i: int| 0 <= i < s.drop_last().len() implies s.drop_last()[i].1 != v by {
            assert(s.drop_last()[i] == s[i]);
        }
        lemma_scoring_none(s.drop_last(), v);
    }
}

/// Rankings are stable: the entries with any one score come out in the order they came in.
pub proof fn lemma_ranked_stable(s: Seq<(usize, u32)>, v: u32)
    ensures
        scoring(ranked(s), v) == scoring(s, v),
    decreases s.len(),
{
    let pred = scored(v);
    reveal(Seq::filter);
    if s.len() == 0 {
        assert(ranked(s) =~= s);
    } else {
        let init = s.drop_last();
        let x = s.last();
        lemma_ranked_stable(init, v);
        let r = ranked(init);
        lemma_ranked_descending(init);
        lemma_insert_point_bounds(r, x.1);
        let k = insert_point(r, x.1) as int;
        let front = r.take(k);
        let back = r.skip(k);
        assert(r =~= front + back);
        assert(ranked(s) =~= front + seq![x] + back);
        Seq::filter_distributes_over_add(front, back, pred);
        Seq::filter_distributes_over_add(front + seq![x], back, pred);
        Seq::filter_distributes_over_add(front, seq![x], pred);
        assert(seq![x].drop_last() =~= Seq::<(usize, u32)>::empty());
        if x.1 == v {
            assert forall|i: int| 0 <= i < back.len() implies back[i].1 != v by {
                assert(back[i] == r[k + i]);
                if i > 0 {
                    assert(r[k].1 >= r[k + i].1);
                }
            }
            lemma_scoring_none(back, v);
            assert(back.filter(pred) =~= Seq::<(usize, u32)>::empty());
            assert(seq![x].filter(pred) =~= seq![x]);
            assert(scoring(ranked(s), v) =~= scoring(r, v).push(x));
            assert(scoring(s, v) == scoring(init, v).push(x));
        } else {
            assert(!pred(x));
            assert(seq![x].last() == x);
            assert(seq![x].drop_last().filter(pred) =~= Seq::<(usize, u32)>::empty());
            assert(seq![x].filter(pred) =~= Seq::<(usize, u32)>::empty());
            assert(scoring(ranked(s), v) =~= front.filter(pred) + back.filter(pred));
            assert(scoring(s, v) == scoring(init, v));
        }
    }
}

/// Orders `entries` as `ranked` says, by insertion.
pub fn rank_by_score(entries: &Vec<(usize, u32)>) -> (r: Vec<(usize, u32)>)
    ensures
        r@ == ranked(entries@),
{
    let mut r: Vec<(usize, u32)> = Vec::new();
    let mut i: usize = 0;
    while i < entries.len()
        invariant
            i <= entries.len(),
            r@ == ranked(entries@.take(i as int)),
        decreases entries.len() - i,
    {
        let x = entries[i];
        proof {
            lemma_ranked_descending(entries@.take(i as int));
        }
        let mut k: usize = 0;
        while k < r.len() && r[k].1 >= x.1
            invariant
                k <= r.len(),
                forall|j: int| 0 <= j < k ==> r@[j].1 >= x.1,
            decreases r.len() - k,
        {
            k = k + 1;
        }
        proof {
            lemma_insert_point(r@, x.1, k as int);
            assert(entries@.take(i + 1).drop_last() =~= entries@.take(i as int));
            assert(entries@.take(i + 1).last() == x);
        }
        r.insert(k, x);
        i = i + 1;
    }
    assert(entries@.take(i as int) =~= entries@);
    r
}

} // verus!
