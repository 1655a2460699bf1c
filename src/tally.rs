//! Rank aggregation: every ballot gives the option at 0-indexed rank `i` of
//! `K` ranks `K - i` points; options are listed by descending total, ties in
//! the room's canonical option order.

use vstd::prelude::*;
use crate::options::texts;
use vstd::set_lib::{lemma_int_range, lemma_subset_equality, set_int_range};

verus! {

broadcast use vstd::seq_lib::group_seq_properties;

/// One line of a result: an option and its total.
#[derive(Debug)]
pub struct Score {
    pub option: String,
    pub score: usize,
}

/// The texts of a list of ballots.
pub open spec fn ballot_texts(v: Seq<Vec<String>>) -> Seq<Seq<Seq<char>>> {
    v.map_values(|b: Vec<String>| texts(b@))
}

/// Points that the positions from `i` on of ballot `b` give option `o`.
pub open spec fn points_from(b: Seq<Seq<char>>, o: Seq<char>, i: nat) -> nat
    decreases b.len() - i,
{
    if i >= b.len() {
        0
    } else {
        (if b[i as int] == o {
            (b.len() - i) as nat
        } else {
            0nat
        }) + points_from(b, o, i + 1)
    }
}

/// Points that ballot `b` gives option `o`.
pub open spec fn ballot_points(b: Seq<Seq<char>>, o: Seq<char>) -> nat {
    points_from(b, o, 0)
}

/// Points that all ballots give option `o`.
pub open spec fn total_points(ballots: Seq<Seq<Seq<char>>>, o: Seq<char>) -> nat
    decreases ballots.len(),
{
    if ballots.len() == 0 {
        0
    } else {
        total_points(ballots.drop_last(), o) + ballot_points(ballots.last(), o)
    }
}

/// A total as a `usize`: the largest `usize` where the total is larger.
pub open spec fn saturate(n: nat) -> usize {
    if n > usize::MAX {
        usize::MAX
    } else {
        n as usize
    }
}

/// The options in order of first occurrence, each once.
pub open spec fn distinct_texts(s: Seq<Seq<char>>) -> Seq<Seq<char>>
    decreases s.len(),
{
    if s.len() == 0 {
        Seq::empty()
    } else {
        let d = distinct_texts(s.drop_last());
        if d.contains(s.last()) {
            d
        } else {
            d.push(s.last())
        }
    }
}

/// The total of each distinct option, in canonical order.
pub open spec fn option_scores(options: Seq<Seq<char>>, ballots: Seq<Seq<Seq<char>>>) -> Seq<
    usize,
> {
    let d = distinct_texts(options);
    Seq::new(d.len(), |i: int| saturate(total_points(ballots, d[i])))
}

/// Entry `a` is listed before entry `b`: a higher score, or the same score and
/// an earlier place in canonical order.
pub open spec fn listed_before(s: Seq<usize>, a: int, b: int) -> bool {
    s[a] > s[b] || (s[a] == s[b] && a < b)
}

/// `p` lists the indices of `s` by descending score, ties by index.
pub open spec fn ranking(p: Seq<int>, s: Seq<usize>) -> bool {
    &&& p.len() == s.len()
    &&& forall|k: int| 0 <= k < p.len() ==> 0 <= #[trigger] p[k] < s.len()
    &&& forall|k: int, l: int|
        0 <= k < l < p.len() ==> listed_before(s, #[trigger] p[k], #[trigger] p[l])
}

/// The views of a result.
pub open spec fn score_views(r: Seq<Score>) -> Seq<(Seq<char>, usize)> {
    r.map_values(|x: Score| (x.option@, x.score))
}

/// `r` is the result of the ballots over the options: each distinct option
/// once with its total, by descending total, ties in canonical order.
pub open spec fn is_tally(
    r: Seq<(Seq<char>, usize)>,
    options: Seq<Seq<char>>,
    ballots: Seq<Seq<Seq<char>>>,
) -> bool {
    let d = distinct_texts(options);
    let s = option_scores(options, ballots);
    exists|p: Seq<int>|
        #![trigger ranking(p, s)]
        ranking(p, s) && r.len() == p.len() && forall|k: int|
            0 <= k < r.len() ==> #[trigger] r[k] == (d[p[k]], s[p[k]])
}

/// Points that ballot `b` gives option `o`.
fn points_of(b: &Vec<String>, o: &String) -> (r: usize)
    ensures
        r == saturate(ballot_points(texts(b@), o@)),
{
    let ghost t = texts(b@);
    let n = b.len();
    let mut acc: usize = 0;
    let mut i: usize = 0;
    while i < n
        invariant
            n == b.len(),
            t == texts(b@),
            i <= n,
            saturate((acc + points_from(t, o@, i as nat)) as nat) == saturate(ballot_points(t, o@)),
            acc <= usize::MAX,
        decreases n - i,
    {
        if b[i] == *o {
            let add = n - i;
            if acc > usize::MAX - add {
                acc = usize::MAX;
            } else {
                acc = acc + add;
            }
        }
        i += 1;
    }
    acc
}

/// `a + b` as a `usize`, saturating.
fn add_saturating(a: usize, b: usize) -> (r: usize)
    ensures
        r == saturate((a + b) as nat),
{
    if a > usize::MAX - b {
        usize::MAX
    } else {
        a + b
    }
}

proof fn lemma_saturate_add(x: nat, y: nat)
    ensures
        saturate((saturate(x) + y) as nat) == saturate(x + y),
{
}

/// Points that all ballots give option `o`.
fn total_of(ballots: &Vec<Vec<String>>, o: &String) -> (r: usize)
    ensures
        r == saturate(total_points(ballot_texts(ballots@), o@)),
{
    let mut acc: usize = 0;
    let mut i: usize = 0;
    while i < ballots.len()
        invariant
            i <= ballots.len(),
            acc == saturate(total_points(ballot_texts(ballots@.subrange(0, i as int)), o@)),
        decreases ballots.len() - i,
    {
        let p = points_of(&ballots[i], o);
        proof {
            let pre = ballot_texts(ballots@.subrange(0, i as int));
            let next = ballot_texts(ballots@.subrange(0, i + 1));
            assert(next.drop_last() =~= pre);
            assert(next.last() == texts(ballots@[i as int]@));
            lemma_saturate_add(total_points(pre, o@), ballot_points(next.last(), o@));
            lemma_saturate_add(ballot_points(next.last(), o@), total_points(pre, o@));
        }
        acc = add_saturating(acc, p);
        i += 1;
    }
    assert(ballots@.subrange(0, ballots.len() as int) =~= ballots@);
    acc
}

/// Whether `v` holds a string with the text of `x`.
fn contains_text(v: &Vec<String>, x: &String) -> (r: bool)
    ensures
        r == texts(v@).contains(x@),
{
    let mut i: usize = 0;
    while i < v.len()
        invariant
            i <= v.len(),
            forall|j: int| 0 <= j < i ==> v@[j]@ != x@,
        decreases v.len() - i,
    {
        if v[i] == *x {
            assert(texts(v@)[i as int] == x@);
            return true;
        }
        i += 1;
    }
    assert(!texts(v@).contains(x@)) by {
        if texts(v@).contains(x@) {
            let j = choose|j: int| 0 <= j < texts(v@).len() && texts(v@)[j] == x@;
            assert(v@[j]@ == x@);
        }
    }
    false
}

/// The options in order of first occurrence, each once.
fn distinct_options(options: &Vec<String>) -> (r: Vec<String>)
    ensures
        texts(r@) == distinct_texts(texts(options@)),
{
    let mut r: Vec<String> = Vec::new();
    let mut i: usize = 0;
    while i < options.len()
        invariant
            i <= options.len(),
            texts(r@) == distinct_texts(texts(options@.subrange(0, i as int))),
        decreases options.len() - i,
    {
        let found = contains_text(&r, &options[i]);
        proof {
            let next = texts(options@.subrange(0, i + 1));
            assert(next.drop_last() =~= texts(options@.subrange(0, i as int)));
            assert(next.last() == options@[i as int]@);
        }
        if !found {
            let x = options[i].clone();
            let ghost before = r@;
            r.push(x);
            assert(texts(r@) =~= texts(before).push(options@[i as int]@));
        }
        i += 1;
    }
    assert(options@.subrange(0, options.len() as int) =~= options@);
    r
}

/// Indices of `s` by descending score, ties by index.
fn rank_indices(s: &Vec<usize>) -> (p: Vec<usize>)
    ensures
        ranking(p@.map_values(|x: usize| x as int), s@),
{
    let mut p: Vec<usize> = Vec::new();
    let mut i: usize = 0;
    while i < s.len()
        invariant
            i <= s.len(),
            p.len() == i,
            forall|k: int| 0 <= k < p.len() ==> #[trigger] p@[k] < i,
            forall|k: int, l: int|
                0 <= k < l < p.len() ==> listed_before(s@, #[trigger] p@[k] as int, #[trigger] p@[l] as int),
            forall|a: int, b: int|
                0 <= a < i && 0 <= b < i && a != b ==> listed_before(s@, a, b) || listed_before(s@, b, a),
            forall|a: int, b: int| #![auto] 0 <= a < p.len() && 0 <= b < p.len() && a != b ==> p@[a] != p@[b],
        decreases s.len() - i,
    {
        let mut q: usize = 0;
        while q < p.len() && s[p[q]] >= s[i]
            invariant
                i < s.len(),
                q <= p.len(),
                forall|k: int| 0 <= k < p.len() ==> #[trigger] p@[k] < i,
                forall|k: int| 0 <= k < q ==> s@[#[trigger] p@[k] as int] >= s@[i as int],
            decreases p.len() - q,
        {
            q += 1;
        }
        let ghost old_p = p@;
        p.insert(q, i);
        proof {
            assert(p@ =~= old_p.insert(q as int, i));
            assert forall|k: int, l: int| 0 <= k < l < p.len() implies listed_before(
                s@,
                #[trigger] p@[k] as int,
                #[trigger] p@[l] as int,
            ) by {
                if l < q {
                } else if l == q {
                    assert(s@[old_p[k] as int] >= s@[i as int]);
                } else if k < q {
                    assert(p@[l] == old_p[l - 1]);
                    assert(s@[old_p[q as int] as int] < s@[i as int]);
                    if l - 1 > q {
                        assert(listed_before(s@, old_p[q as int] as int, old_p[l - 1] as int));
                    }
                } else if k == q {
                    assert(p@[l] == old_p[l - 1]);
                    assert(s@[old_p[q as int] as int] < s@[i as int]);
                    if l - 1 > q {
                        assert(listed_before(s@, old_p[q as int] as int, old_p[l - 1] as int));
                    }
                } else {
                    assert(p@[k] == old_p[k - 1] && p@[l] == old_p[l - 1]);
                }
            }
        }
        i += 1;
    }
    p
}

/// The result of the ballots over the options: each distinct option once
/// with its total, by descending total, ties in the options' order.
pub fn tally(options: &Vec<String>, ballots: &Vec<Vec<String>>) -> (r: Vec<Score>)
    ensures
        is_tally(score_views(r@), texts(options@), ballot_texts(ballots@)),
{
    let d = distinct_options(options);
    let mut s: Vec<usize> = Vec::new();
    let mut i: usize = 0;
    while i < d.len()
        invariant
            i <= d.len(),
            texts(d@) == distinct_texts(texts(options@)),
            s@ =~= option_scores(texts(options@), ballot_texts(ballots@)).subrange(0, i as int),
        decreases d.len() - i,
    {
        let t = total_of(ballots, &d[i]);
        s.push(t);
        i += 1;
    }
    let p = rank_indices(&s);
    let ghost pi = p@.map_values(|x: usize| x as int);
    let mut r: Vec<Score> = Vec::new();
    let mut k: usize = 0;
    while k < p.len()
        invariant
            k <= p.len(),
            p.len() == s.len(),
            s.len() == d.len(),
            pi == p@.map_values(|x: usize| x as int),
            ranking(pi, s@),
            r.len() == k,
            forall|j: int|
                0 <= j < k ==> #[trigger] score_views(r@)[j] == (texts(d@)[pi[j]], s@[pi[j]]),
        decreases p.len() - k,
    {
        let idx = p[k];
        assert(pi[k as int] == idx as int);
        assert(0 <= pi[k as int] < s.len());
        let line = Score { option: d[idx].clone(), score: s[idx] };
        let ghost before = r@;
        r.push(line);
        assert(score_views(r@) =~= score_views(before).push((d@[idx as int]@, s@[idx as int])));
        k += 1;
    }
    assert(ranking(pi, option_scores(texts(options@), ballot_texts(ballots@))));
    r
}

proof fn lemma_total_points_concat(a: Seq<Seq<Seq<char>>>, b: Seq<Seq<Seq<char>>>, o: Seq<char>)
    ensures
        total_points(a + b, o) == total_points(a, o) + total_points(b, o),
    decreases b.len(),
{
    if b.len() > 0 {
        assert((a + b).drop_last() =~= a + b.drop_last());
        assert((a + b).last() == b.last());
        lemma_total_points_concat(a, b.drop_last(), o);
    } else {
        assert(a + b =~= a);
    }
}

proof fn lemma_total_points_remove(b: Seq<Seq<Seq<char>>>, i: int, o: Seq<char>)
    requires
        0 <= i < b.len(),
    ensures
        total_points(b, o) == total_points(b.remove(i), o) + ballot_points(b[i], o),
{
    let pre = b.subrange(0, i);
    let post = b.subrange(i + 1, b.len() as int);
    assert(b =~= pre + seq![b[i]] + post);
    assert(b.remove(i) =~= pre + post);
    lemma_total_points_concat(pre + seq![b[i]], post, o);
    lemma_total_points_concat(pre, seq![b[i]], o);
    lemma_total_points_concat(pre, post, o);
    let one = seq![b[i]];
    assert(one.drop_last() =~= Seq::<Seq<Seq<char>>>::empty());
    assert(one.last() == b[i]);
    assert(total_points(one.drop_last(), o) == 0);
    assert(total_points(one, o) == ballot_points(b[i], o));
}

proof fn lemma_total_points_multiset(a: Seq<Seq<Seq<char>>>, b: Seq<Seq<Seq<char>>>, o: Seq<char>)
    requires
        a.to_multiset() == b.to_multiset(),
    ensures
        total_points(a, o) == total_points(b, o),
    decreases a.len(),
{
    a.to_multiset_ensures();
    b.to_multiset_ensures();
    if a.len() == 0 {
        assert(b.len() == 0);
    } else {
        let x = a.last();
        assert(a.to_multiset().count(x) > 0) by {
            assert(a.contains(x));
        }
        assert(b.contains(x));
        let i = choose|i: int| 0 <= i < b.len() && b[i] == x;
        let rest = b.remove(i);
        assert(a.drop_last().push(x) =~= a);
        a.drop_last().to_multiset_ensures();
        assert(a.drop_last().to_multiset() =~= rest.to_multiset()) by {
            assert(a.to_multiset() =~= a.drop_last().to_multiset().insert(x));
            assert(rest.to_multiset() =~= b.to_multiset().remove(x));
        }
        lemma_total_points_multiset(a.drop_last(), rest, o);
        lemma_total_points_remove(b, i, o);
    }
}

/// The result does not depend on the order in which ballots are counted:
/// any reordering of the same ballots gives the same totals and the same
/// result.
pub proof fn tally_ignores_ballot_order(
    options: Seq<Seq<char>>,
    a: Seq<Seq<Seq<char>>>,
    b: Seq<Seq<Seq<char>>>,
)
    requires
        a.to_multiset() == b.to_multiset(),
    ensures
        option_scores(options, a) == option_scores(options, b),
        forall|r: Seq<(Seq<char>, usize)>|
            is_tally(r, options, a) <==> #[trigger] is_tally(r, options, b),
{
    let d = distinct_texts(options);
    assert forall|i: int| 0 <= i < d.len() implies total_points(a, d[i]) == total_points(
        b,
        d[i],
    ) by {
        lemma_total_points_multiset(a, b, d[i]);
    }
    assert(option_scores(options, a) =~= option_scores(options, b));
}

proof fn lemma_ranking_lower(p: Seq<int>, s: Seq<usize>, k: int)
    requires
        ranking(p, s),
        forall|i: int, j: int| 0 <= i < s.len() && 0 <= j < s.len() ==> s[i] == s[j],
        0 <= k < p.len(),
    ensures
        p[k] >= k,
    decreases k,
{
    if k > 0 {
        lemma_ranking_lower(p, s, k - 1);
        assert(listed_before(s, p[k - 1], p[k]));
    }
}

proof fn lemma_ranking_upper(p: Seq<int>, s: Seq<usize>, k: int)
    requires
        ranking(p, s),
        forall|i: int, j: int| 0 <= i < s.len() && 0 <= j < s.len() ==> s[i] == s[j],
        0 <= k < p.len(),
    ensures
        p[k] <= k,
    decreases p.len() - k,
{
    if k + 1 < p.len() {
        lemma_ranking_upper(p, s, k + 1);
        assert(listed_before(s, p[k], p[k + 1]));
    } else {
        assert(p[k] < s.len());
    }
}

/// With no ballots every distinct option scores zero, and the result keeps
/// the options' own order.
pub proof fn tally_without_ballots(options: Seq<Seq<char>>, r: Seq<(Seq<char>, usize)>)
    requires
        is_tally(r, options, Seq::empty()),
    ensures
        r == distinct_texts(options).map_values(|t: Seq<char>| (t, 0usize)),
        options.no_duplicates() ==> r == options.map_values(|t: Seq<char>| (t, 0usize)),
{
    if options.no_duplicates() {
        distinct_texts_without_repeats(options);
    }
    let d = distinct_texts(options);
    let s = option_scores(options, Seq::empty());
    let p = choose|p: Seq<int>|
        #![trigger ranking(p, s)]
        ranking(p, s) && r.len() == p.len() && forall|k: int|
            0 <= k < r.len() ==> #[trigger] r[k] == (d[p[k]], s[p[k]]);
    assert forall|i: int| 0 <= i < s.len() implies s[i] == 0 by {
        assert(total_points(Seq::empty(), d[i]) == 0);
    }
    assert forall|k: int| 0 <= k < r.len() implies r[k] == (d[k], 0usize) by {
        lemma_ranking_lower(p, s, k);
        lemma_ranking_upper(p, s, k);
    }
    assert(r =~= d.map_values(|t: Seq<char>| (t, 0usize)));
}

proof fn lemma_ranking_onto(p: Seq<int>, s: Seq<usize>, i: int)
    requires
        ranking(p, s),
        0 <= i < s.len(),
    ensures
        p.contains(i),
{
    assert(p.no_duplicates()) by {
        assert forall|k: int, l: int| 0 <= k < p.len() && 0 <= l < p.len() && k != l implies p[k]
            != p[l] by {
            if k < l {
                assert(listed_before(s, p[k], p[l]));
            } else {
                assert(listed_before(s, p[l], p[k]));
            }
        }
    }
    p.unique_seq_to_set();
    lemma_int_range(0, s.len() as int);
    assert(p.to_set().subset_of(set_int_range(0, s.len() as int)));
    lemma_subset_equality(p.to_set(), set_int_range(0, s.len() as int));
    assert(set_int_range(0, s.len() as int).contains(i));
}

proof fn lemma_ranking_unique(p: Seq<int>, q: Seq<int>, s: Seq<usize>)
    requires
        ranking(p, s),
        ranking(q, s),
    ensures
        p == q,
{
    assert forall|k: int| 0 <= k < p.len() implies p[k] == q[k] by {
        lemma_ranking_first_difference(p, q, s, k);
    }
    assert(p =~= q);
}

proof fn lemma_ranking_first_difference(p: Seq<int>, q: Seq<int>, s: Seq<usize>, k: int)
    requires
        ranking(p, s),
        ranking(q, s),
        0 <= k < p.len(),
    ensures
        p[k] == q[k],
    decreases k,
{
    assert forall|m: int| 0 <= m < k implies p[m] == q[m] by {
        lemma_ranking_first_difference(p, q, s, m);
    }
    let a = p[k];
    let b = q[k];
    if a != b {
        lemma_ranking_onto(q, s, a);
        lemma_ranking_onto(p, s, b);
        let m = choose|m: int| 0 <= m < q.len() && q[m] == a;
        let n = choose|n: int| 0 <= n < p.len() && p[n] == b;
        if m < k {
            assert(p[m] == a);
            assert(listed_before(s, p[m], p[k]));
        }
        if n < k {
            assert(q[n] == b);
            assert(listed_before(s, q[n], q[k]));
        }
        if m > k && n > k {
            assert(listed_before(s, q[k], q[m]));
            assert(listed_before(s, p[k], p[n]));
        }
    }
}

/// The result of a count is unique: two results of the same ballots over
/// the same options are equal.
pub proof fn tally_is_unique(
    r1: Seq<(Seq<char>, usize)>,
    r2: Seq<(Seq<char>, usize)>,
    options: Seq<Seq<char>>,
    ballots: Seq<Seq<Seq<char>>>,
)
    requires
        is_tally(r1, options, ballots),
        is_tally(r2, options, ballots),
    ensures
        r1 == r2,
{
    let d = distinct_texts(options);
    let s = option_scores(options, ballots);
    let p = choose|p: Seq<int>|
        #![trigger ranking(p, s)]
        ranking(p, s) && r1.len() == p.len() && forall|k: int|
            0 <= k < r1.len() ==> #[trigger] r1[k] == (d[p[k]], s[p[k]]);
    let q = choose|q: Seq<int>|
        #![trigger ranking(q, s)]
        ranking(q, s) && r2.len() == q.len() && forall|k: int|
            0 <= k < r2.len() ==> #[trigger] r2[k] == (d[q[k]], s[q[k]]);
    lemma_ranking_unique(p, q, s);
    assert(r1 =~= r2);
}

/// A ballot with the options at ranks `i` and `i + 1` exchanged.
pub open spec fn swap_adjacent(b: Seq<Seq<char>>, i: int) -> Seq<Seq<char>> {
    b.update(i, b[i + 1]).update(i + 1, b[i])
}

/// One if `x` is `o`, else zero.
pub open spec fn indicator(x: Seq<char>, o: Seq<char>) -> int {
    if x == o {
        1
    } else {
        0
    }
}

proof fn lemma_points_same_suffix(b: Seq<Seq<char>>, c: Seq<Seq<char>>, o: Seq<char>, k: nat)
    requires
        b.len() == c.len(),
        forall|j: int| k <= j < b.len() ==> b[j] == c[j],
    ensures
        points_from(b, o, k) == points_from(c, o, k),
    decreases b.len() - k,
{
    if k < b.len() {
        lemma_points_same_suffix(b, c, o, k + 1);
    }
}

proof fn lemma_points_swap(b: Seq<Seq<char>>, i: int, o: Seq<char>, k: nat)
    requires
        0 <= i < b.len() - 1,
        k <= i,
    ensures
        points_from(swap_adjacent(b, i), o, k) as int == points_from(b, o, k) as int + indicator(
            b[i + 1],
            o,
        ) - indicator(b[i], o),
    decreases i - k,
{
    let c = swap_adjacent(b, i);
    let n = b.len();
    assert(c.len() == n);
    if k < i {
        lemma_points_swap(b, i, o, k + 1);
        assert(c[k as int] == b[k as int]);
        assert(points_from(c, o, k) == (if c[k as int] == o {
            (n - k) as nat
        } else {
            0nat
        }) + points_from(c, o, k + 1));
        assert(points_from(b, o, k) == (if b[k as int] == o {
            (n - k) as nat
        } else {
            0nat
        }) + points_from(b, o, k + 1));
    } else {
        lemma_points_same_suffix(b, c, o, (i + 2) as nat);
        assert(c[i] == b[i + 1] && c[i + 1] == b[i]);
        let j = (i + 1) as nat;
        assert(points_from(c, o, k) == (if c[i] == o {
            (n - i) as nat
        } else {
            0nat
        }) + points_from(c, o, j));
        assert(points_from(c, o, j) == (if c[i + 1] == o {
            (n - j) as nat
        } else {
            0nat
        }) + points_from(c, o, j + 1));
        assert(points_from(b, o, k) == (if b[i] == o {
            (n - i) as nat
        } else {
            0nat
        }) + points_from(b, o, j));
        assert(points_from(b, o, j) == (if b[i + 1] == o {
            (n - j) as nat
        } else {
            0nat
        }) + points_from(b, o, j + 1));
    }
}

proof fn lemma_total_points_swap(a: Seq<Seq<Seq<char>>>, k: int, i: int, o: Seq<char>)
    requires
        0 <= k < a.len(),
        0 <= i < a[k].len() - 1,
    ensures
        total_points(a.update(k, swap_adjacent(a[k], i)), o) as int == total_points(a, o) as int
            + indicator(a[k][i + 1], o) - indicator(a[k][i], o),
    decreases a.len(),
{
    let u = a.update(k, swap_adjacent(a[k], i));
    lemma_points_swap(a[k], i, o, 0);
    if k == a.len() - 1 {
        assert(u.drop_last() =~= a.drop_last());
    } else {
        assert(u.drop_last() =~= a.drop_last().update(k, swap_adjacent(a[k], i)));
        assert(a.drop_last()[k] == a[k]);
        lemma_total_points_swap(a.drop_last(), k, i, o);
    }
}

/// A ballot's ranks matter: exchanging the options at two adjacent ranks of
/// one ballot takes one point from the option moved down, gives one to the
/// option moved up, and leaves every other option's total as it was.
pub proof fn swapping_adjacent_ranks_moves_one_point(
    ballots: Seq<Seq<Seq<char>>>,
    k: int,
    i: int,
    o: Seq<char>,
)
    requires
        0 <= k < ballots.len(),
        0 <= i < ballots[k].len() - 1,
        ballots[k][i] != ballots[k][i + 1],
    ensures
        o == ballots[k][i] ==> total_points(ballots.update(k, swap_adjacent(ballots[k], i)), o)
            == total_points(ballots, o) - 1,
        o == ballots[k][i + 1] ==> total_points(ballots.update(k, swap_adjacent(ballots[k], i)), o)
            == total_points(ballots, o) + 1,
        o != ballots[k][i] && o != ballots[k][i + 1] ==> total_points(
            ballots.update(k, swap_adjacent(ballots[k], i)),
            o,
        ) == total_points(ballots, o),
{
    lemma_total_points_swap(ballots, k, i, o);
}

/// Without a repeated option, the distinct options are the options
/// themselves, in their own order.
pub proof fn distinct_texts_without_repeats(s: Seq<Seq<char>>)
    requires
        s.no_duplicates(),
    ensures
        distinct_texts(s) == s,
    decreases s.len(),
{
    if s.len() > 0 {
        let d = s.drop_last();
        assert(d.no_duplicates());
        distinct_texts_without_repeats(d);
        assert(!d.contains(s.last())) by {
            if d.contains(s.last()) {
                let j = choose|j: int| 0 <= j < d.len() && d[j] == s.last();
                assert(s[j] == s[s.len() - 1]);
            }
        }
        assert(d.push(s.last()) =~= s);
    }
}

/// `r` has the entry `(t, n)`.
pub open spec fn lists(r: Seq<(Seq<char>, usize)>, t: Seq<char>, n: usize) -> bool {
    exists|k: int| 0 <= k < r.len() && #[trigger] r[k] == (t, n)
}

/// A result lists every distinct option exactly with its total (the largest
/// `usize` where the total is larger), and nothing else.
pub proof fn tally_lists_every_option(
    r: Seq<(Seq<char>, usize)>,
    options: Seq<Seq<char>>,
    ballots: Seq<Seq<Seq<char>>>,
)
    requires
        is_tally(r, options, ballots),
    ensures
        r.len() == distinct_texts(options).len(),
        forall|i: int|
            0 <= i < distinct_texts(options).len() ==> lists(
                r,
                #[trigger] distinct_texts(options)[i],
                saturate(total_points(ballots, distinct_texts(options)[i])),
            ),
        forall|k: int|
            0 <= k < r.len() ==> distinct_texts(options).contains(#[trigger] r[k].0) && r[k].1
                == saturate(total_points(ballots, r[k].0)),
{
    let d = distinct_texts(options);
    let s = option_scores(options, ballots);
    let p = choose|p: Seq<int>|
        #![trigger ranking(p, s)]
        ranking(p, s) && r.len() == p.len() && forall|k: int|
            0 <= k < r.len() ==> #[trigger] r[k] == (d[p[k]], s[p[k]]);
    assert forall|i: int| 0 <= i < d.len() implies lists(
        r,
        #[trigger] d[i],
        saturate(total_points(ballots, d[i])),
    ) by {
        lemma_ranking_onto(p, s, i);
        let k = choose|k: int| 0 <= k < p.len() && p[k] == i;
        assert(s[i] == saturate(total_points(ballots, d[i])));
        assert(r[k] == (d[i], s[i]));
    }
    assert forall|k: int| 0 <= k < r.len() implies d.contains(#[trigger] r[k].0) && r[k].1
        == saturate(total_points(ballots, r[k].0)) by {
        let i = p[k];
        assert(0 <= i < s.len());
        assert(s[i] == saturate(total_points(ballots, d[i])));
        assert(r[k] == (d[i], s[i]));
        assert(d[i] == r[k].0);
    }
}

/// Exchanging two different adjacent options in one ballot moves one point in
/// the result: each option keeps its place in the list of options, and its
/// listed score loses one if it moved down, gains one if it moved up, and is
/// unchanged otherwise (for totals below the largest `usize`).
pub proof fn tally_after_adjacent_swap(
    r1: Seq<(Seq<char>, usize)>,
    r2: Seq<(Seq<char>, usize)>,
    options: Seq<Seq<char>>,
    ballots: Seq<Seq<Seq<char>>>,
    k: int,
    i: int,
)
    requires
        0 <= k < ballots.len(),
        0 <= i < ballots[k].len() - 1,
        ballots[k][i] != ballots[k][i + 1],
        is_tally(r1, options, ballots),
        is_tally(r2, options, ballots.update(k, swap_adjacent(ballots[k], i))),
    ensures
        forall|j: int|
            0 <= j < r1.len() && total_points(ballots, #[trigger] r1[j].0) < usize::MAX ==> lists(
                r2,
                r1[j].0,
                (r1[j].1 as int + indicator(ballots[k][i + 1], r1[j].0) - indicator(
                    ballots[k][i],
                    r1[j].0,
                )) as usize,
            ),
{
    let swapped = ballots.update(k, swap_adjacent(ballots[k], i));
    let d = distinct_texts(options);
    tally_lists_every_option(r1, options, ballots);
    tally_lists_every_option(r2, options, swapped);
    assert forall|j: int|
        0 <= j < r1.len() && total_points(ballots, #[trigger] r1[j].0) < usize::MAX implies lists(
        r2,
        r1[j].0,
        (r1[j].1 as int + indicator(ballots[k][i + 1], r1[j].0) - indicator(ballots[k][i], r1[j].0))
            as usize,
    ) by {
        let o = r1[j].0;
        lemma_total_points_swap(ballots, k, i, o);
        assert(d.contains(o));
        let m = choose|m: int| 0 <= m < d.len() && d[m] == o;
        assert(lists(r2, d[m], saturate(total_points(swapped, d[m]))));
    }
}

} // verus!
