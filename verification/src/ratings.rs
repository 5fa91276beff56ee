//! Rating aggregation: the exact average of the rating values linked to an
//! entry through `IsRatedWith` triples, and the stable descending sort of
//! entries by that average.
//!
//! An average is kept as an exact fraction `sum / count` with `count >= 1`;
//! an entry with no linked ratings has the average zero (`0 / 1`), never an
//! undefined value. Averages are compared exactly, by cross-multiplication.

use vstd::arithmetic::div_mod::lemma_fundamental_div_mod;
use vstd::prelude::*;

use crate::entities::{Entry, EntryView, ObjectId, ObjectIdView, Rating, RatingView, Relation,
    Triple, TripleView};
use crate::sort::{applies_perm, is_index_perm, stable_sort_pairs, stable_sorted_pairs, SortKey};
use crate::text::contains_string;

verus! {

/// The largest magnitude a sum of byte-sized rating values can reach on
/// this machine (`2^7 * 2^64`).
pub const MAX_RATING_SUM: i128 = 0x80_0000_0000_0000_0000;

/// The exact average of a set of rating values: the fraction
/// `sum / count`.
#[derive(Clone, Copy, Debug)]
pub struct AvgRating {
    pub sum: i128,
    pub count: usize,
}

impl AvgRating {
    /// Positive denominator; numerator within what a sum of byte-sized
    /// values can reach.
    pub open spec fn wf(self) -> bool {
        &&& 1 <= self.count
        &&& -(MAX_RATING_SUM as int) <= self.sum <= MAX_RATING_SUM as int
    }

    /// This average is at least `other` (exact comparison of the two
    /// fractions by cross-multiplication).
    pub open spec fn ge(self, other: Self) -> bool {
        self.sum * other.count >= other.sum * self.count
    }
}

/// Floor division with remainder: `s == q * c + r` with `0 <= r < c`.
fn floor_divmod(s: i128, c: usize) -> (qr: (i128, u128))
    requires
        1 <= c,
        -MAX_RATING_SUM <= s <= MAX_RATING_SUM,
    ensures
        s == qr.0 * c + qr.1,
        0 <= qr.1 < c,
        -MAX_RATING_SUM - 1 <= qr.0 <= MAX_RATING_SUM,
{
    let cu: u128 = c as u128;
    if s >= 0 {
        let m: u128 = s as u128;
        let q: u128 = m / cu;
        let r: u128 = m % cu;
        proof {
            lemma_fundamental_div_mod(m as int, cu as int);
            let mi = m as int;
            let ci = c as int;
            let qi = q as int;
            let ri = r as int;
            assert(qi <= mi) by (nonlinear_arith)
                requires
                    qi == mi / ci,
                    ci >= 1,
                    mi >= 0,
            ;
            assert(mi == ci * qi + ri);
            assert(ci * qi == qi * ci) by (nonlinear_arith);
        }
        (q as i128, r)
    } else {
        let m: u128 = (-s) as u128;
        let q0: u128 = m / cu;
        let r0: u128 = m % cu;
        proof {
            lemma_fundamental_div_mod(m as int, cu as int);
            let mi = m as int;
            let ci = c as int;
            let qi = q0 as int;
            let ri = r0 as int;
            assert(qi <= mi) by (nonlinear_arith)
                requires
                    qi == mi / ci,
                    ci >= 1,
                    mi >= 0,
            ;
            assert(mi == ci * qi + ri);
            assert((-qi) * ci == -(ci * qi)) by (nonlinear_arith);
            assert((-qi - 1) * ci == -(ci * qi) - ci) by (nonlinear_arith);
        }
        if r0 == 0 {
            (-(q0 as i128), 0)
        } else {
            (-(q0 as i128) - 1, cu - r0)
        }
    }
}

/// How the order of two exact fractions shows in their floor divisions:
/// compare the quotients first, then the remainders cross-multiplied.
proof fn lemma_frac_cmp(
    s1: int,
    c1: int,
    q1: int,
    r1: int,
    s2: int,
    c2: int,
    q2: int,
    r2: int,
)
    requires
        c1 >= 1,
        c2 >= 1,
        s1 == q1 * c1 + r1,
        0 <= r1 < c1,
        s2 == q2 * c2 + r2,
        0 <= r2 < c2,
    ensures
        (s1 * c2 >= s2 * c1) <==> (q1 > q2 || (q1 == q2 && r1 * c2 >= r2 * c1)),
{
    assert((s1 * c2 >= s2 * c1) <==> (q1 > q2 || (q1 == q2 && r1 * c2 >= r2 * c1)))
        by (nonlinear_arith)
        requires
            c1 >= 1,
            c2 >= 1,
            s1 == q1 * c1 + r1,
            0 <= r1 < c1,
            s2 == q2 * c2 + r2,
            0 <= r2 < c2,
    ;
}

impl SortKey for AvgRating {
    open spec fn wf(self) -> bool {
        self.wf()
    }

    /// Ranks at or before: this average is at least the other, so the
    /// sort by this key is descending by average.
    open spec fn key_le(self, other: Self) -> bool {
        self.ge(other)
    }

    proof fn key_le_total(a: Self, b: Self) {
    }

    proof fn key_le_trans(a: Self, b: Self, c: Self) {
        assert(a.sum * c.count >= c.sum * a.count) by (nonlinear_arith)
            requires
                a.sum * b.count >= b.sum * a.count,
                b.sum * c.count >= c.sum * b.count,
                a.count >= 1,
                b.count >= 1,
                c.count >= 1,
        ;
    }

    fn key_le_exec(&self, other: &Self) -> (r: bool) {
        let (q1, r1) = floor_divmod(self.sum, self.count);
        let (q2, r2) = floor_divmod(other.sum, other.count);
        proof {
            lemma_frac_cmp(
                self.sum as int,
                self.count as int,
                q1 as int,
                r1 as int,
                other.sum as int,
                other.count as int,
                q2 as int,
                r2 as int,
            );
        }
        if q1 != q2 {
            q1 > q2
        } else {
            proof {
                assert(r1 * (other.count as int) < 0x1_0000_0000_0000_0000_0000_0000_0000_0000
                    && r2 * (self.count as int) < 0x1_0000_0000_0000_0000_0000_0000_0000_0000)
                    by (nonlinear_arith)
                    requires
                        0 <= r1 < 0x1_0000_0000_0000_0000,
                        0 <= r2 < 0x1_0000_0000_0000_0000,
                        0 < self.count < 0x1_0000_0000_0000_0000,
                        0 < other.count < 0x1_0000_0000_0000_0000,
                ;
            }
            r1 * (other.count as u128) >= r2 * (self.count as u128)
        }
    }
}

/// The rating ids linked to `entry_id` by `IsRatedWith` triples, in triple
/// order; an id occurs once per linking triple.
pub open spec fn entry_rating_links(entry_id: Seq<char>, triples: Seq<TripleView>) -> Seq<
    Seq<char>,
>
    decreases triples.len(),
{
    if triples.len() == 0 {
        Seq::empty()
    } else {
        let init = entry_rating_links(entry_id, triples.drop_last());
        if is_rating_link(triples.last(), entry_id) {
            init.push(rating_link_target(triples.last()))
        } else {
            init
        }
    }
}

/// Whether a triple links `entry_id` to a rating.
pub open spec fn is_rating_link(t: TripleView, entry_id: Seq<char>) -> bool {
    &&& t.subject matches ObjectIdView::Entry(eid) && eid == entry_id
    &&& t.predicate == Relation::IsRatedWith
    &&& t.object is Rating
}

/// The rating id a linking triple points at.
pub open spec fn rating_link_target(t: TripleView) -> Seq<char> {
    match t.object {
        ObjectIdView::Rating(rid) => rid,
        _ => Seq::empty(),
    }
}

/// The sum of the values of the ratings whose id occurs among `linked`;
/// ratings with other ids do not take part.
pub open spec fn linked_value_sum(linked: Seq<Seq<char>>, ratings: Seq<RatingView>) -> int
    decreases ratings.len(),
{
    if ratings.len() == 0 {
        0
    } else {
        linked_value_sum(linked, ratings.drop_last()) + if linked.contains(ratings.last().id) {
            ratings.last().value as int
        } else {
            0
        }
    }
}

/// How many of the ratings have an id occurring among `linked`: the
/// number of selected rating records.
pub open spec fn linked_value_count(linked: Seq<Seq<char>>, ratings: Seq<RatingView>) -> int
    decreases ratings.len(),
{
    if ratings.len() == 0 {
        0
    } else {
        linked_value_count(linked, ratings.drop_last()) + if linked.contains(ratings.last().id) {
            1int
        } else {
            0int
        }
    }
}

/// The numerator of the average rating of `entry_id`: the sum of the
/// values of the selected ratings.
pub open spec fn avg_rating_num(
    entry_id: Seq<char>,
    ratings: Seq<RatingView>,
    triples: Seq<TripleView>,
) -> int {
    linked_value_sum(entry_rating_links(entry_id, triples), ratings)
}

/// The denominator of the average rating of `entry_id`: the number of
/// rating records selected by the `IsRatedWith` links, or one when none
/// is selected (so that the average of an unrated entry is zero, not
/// undefined).
pub open spec fn avg_rating_den(
    entry_id: Seq<char>,
    ratings: Seq<RatingView>,
    triples: Seq<TripleView>,
) -> int {
    let n = linked_value_count(entry_rating_links(entry_id, triples), ratings);
    if n == 0 {
        1
    } else {
        n
    }
}

/// The count of selected ratings is never negative; where it is zero the
/// sum is zero too, and with no linked ids at all both are zero.
proof fn lemma_selected_sum_count(linked: Seq<Seq<char>>, ratings: Seq<RatingView>)
    ensures
        0 <= linked_value_count(linked, ratings),
        linked_value_count(linked, ratings) == 0 ==> linked_value_sum(linked, ratings) == 0,
        linked.len() == 0 ==> linked_value_count(linked, ratings) == 0,
    decreases ratings.len(),
{
    if ratings.len() > 0 {
        lemma_selected_sum_count(linked, ratings.drop_last());
    }
}

/// An entry with zero linked ratings averages exactly zero: when no
/// rating record is selected by the entry's `IsRatedWith` links, the
/// numerator is zero and the denominator one, never an undefined value.
pub proof fn lemma_unrated_average_is_zero(
    entry_id: Seq<char>,
    ratings: Seq<RatingView>,
    triples: Seq<TripleView>,
)
    requires
        linked_value_count(entry_rating_links(entry_id, triples), ratings) == 0,
    ensures
        avg_rating_num(entry_id, ratings, triples) == 0,
        avg_rating_den(entry_id, ratings, triples) == 1,
{
    lemma_selected_sum_count(entry_rating_links(entry_id, triples), ratings);
}

/// Unlinked ratings never influence an average: a rating whose id is not
/// linked to the entry may be added to the rating set without changing
/// the average's numerator or denominator.
pub proof fn lemma_average_ignores_unlinked(
    entry_id: Seq<char>,
    ratings: Seq<RatingView>,
    triples: Seq<TripleView>,
    extra: RatingView,
)
    requires
        !entry_rating_links(entry_id, triples).contains(extra.id),
    ensures
        avg_rating_num(entry_id, ratings.push(extra), triples) == avg_rating_num(
            entry_id,
            ratings,
            triples,
        ),
        avg_rating_den(entry_id, ratings.push(extra), triples) == avg_rating_den(
            entry_id,
            ratings,
            triples,
        ),
{
    assert(ratings.push(extra).drop_last() =~= ratings);
}

/// The ids of the ratings linked to `entry_id` by `IsRatedWith` triples.
fn linked_rating_ids(entry_id: &String, triples: &Vec<Triple>) -> (ids: Vec<String>)
    ensures
        ids.deep_view() == entry_rating_links(entry_id@, triples.deep_view()),
{
    let ghost s = triples.deep_view();
    let mut ids: Vec<String> = Vec::new();
    let mut i: usize = 0;
    while i < triples.len()
        invariant
            i <= triples.len(),
            s == triples.deep_view(),
            s.len() == triples@.len(),
            ids.deep_view() =~= entry_rating_links(entry_id@, s.take(i as int)),
        decreases triples.len() - i,
    {
        proof {
            assert(s.take(i as int + 1).drop_last() =~= s.take(i as int));
            assert(s.take(i as int + 1).last() == s[i as int]);
            assert(s[i as int] == triples@[i as int]@);
        }
        let t = &triples[i];
        match (&t.subject, &t.predicate, &t.object) {
            (ObjectId::Entry(eid), Relation::IsRatedWith, ObjectId::Rating(rid)) => {
                if eid.eq(entry_id) {
                    ids.push(rid.clone());
                }
            },
            _ => {},
        }
        proof {
            assert(ids.deep_view() =~= entry_rating_links(entry_id@, s.take(i as int + 1)));
        }
        i = i + 1;
    }
    proof {
        assert(s.take(triples@.len() as int) =~= s);
    }
    ids
}

/// The sum of the values and the count of the ratings whose id occurs in
/// `ids`.
fn sum_and_count_linked(ids: &Vec<String>, ratings: &Vec<Rating>) -> (r: (i128, usize))
    ensures
        r.0 == linked_value_sum(ids.deep_view(), ratings.deep_view()),
        r.1 == linked_value_count(ids.deep_view(), ratings.deep_view()),
        -(MAX_RATING_SUM as int) <= r.0 <= MAX_RATING_SUM as int,
{
    let ghost rs = ratings.deep_view();
    let mut sum: i128 = 0;
    let mut count: usize = 0;
    let mut j: usize = 0;
    while j < ratings.len()
        invariant
            j <= ratings.len(),
            rs == ratings.deep_view(),
            rs.len() == ratings@.len(),
            sum == linked_value_sum(ids.deep_view(), rs.take(j as int)),
            count == linked_value_count(ids.deep_view(), rs.take(j as int)),
            count <= j,
            -0x80 * (j as int) <= sum <= 0x80 * (j as int),
        decreases ratings.len() - j,
    {
        proof {
            assert(rs.take(j as int + 1).drop_last() =~= rs.take(j as int));
            assert(rs.take(j as int + 1).last() == rs[j as int]);
            assert(rs[j as int] == ratings@[j as int]@);
        }
        let r = &ratings[j];
        if contains_string(ids, &r.id) {
            sum = sum + r.value as i128;
            count = count + 1;
        }
        j = j + 1;
    }
    proof {
        assert(rs.take(ratings@.len() as int) =~= rs);
    }
    (sum, count)
}

/// Something with community ratings linked to it in the relation graph.
pub trait Rated {
    /// The id under which ratings are linked to this thing.
    spec fn rated_id(&self) -> Seq<char>;

    /// The average of the rating values linked to this thing through
    /// `IsRatedWith` triples, as an exact fraction: the arithmetic mean
    /// of exactly the selected rating records, or zero when none is
    /// selected.
    fn average_rating(&self, ratings: &Vec<Rating>, triples: &Vec<Triple>) -> (avg: AvgRating)
        ensures
            avg.wf(),
            avg.sum == avg_rating_num(self.rated_id(), ratings.deep_view(), triples.deep_view()),
            avg.count == avg_rating_den(
                self.rated_id(),
                ratings.deep_view(),
                triples.deep_view(),
            ),
    ;
}

impl Rated for Entry {
    open spec fn rated_id(&self) -> Seq<char> {
        self@.id
    }

    fn average_rating(&self, ratings: &Vec<Rating>, triples: &Vec<Triple>) -> (avg: AvgRating) {
        let ids = linked_rating_ids(&self.id, triples);
        let (sum, count) = sum_and_count_linked(&ids, ratings);
        if count == 0 {
            proof {
                lemma_selected_sum_count(ids.deep_view(), ratings.deep_view());
            }
            AvgRating { sum: 0, count: 1 }
        } else {
            AvgRating { sum, count }
        }
    }
}

/// The average rating of `e1` is at least that of `e2` (the two exact
/// fractions compared by cross-multiplication).
pub open spec fn avg_rating_ge(
    e1: Seq<char>,
    e2: Seq<char>,
    ratings: Seq<RatingView>,
    triples: Seq<TripleView>,
) -> bool {
    avg_rating_num(e1, ratings, triples) * avg_rating_den(e2, ratings, triples)
        >= avg_rating_num(e2, ratings, triples) * avg_rating_den(e1, ratings, triples)
}

/// The full statement of the rating sort: `post` is `pre` rearranged by
/// the index permutation `perm`, it descends by average rating, and
/// entries whose averages are equal keep their input order (stability).
pub open spec fn sorted_by_avg_rating(
    perm: Seq<int>,
    pre: Seq<EntryView>,
    post: Seq<EntryView>,
    ratings: Seq<RatingView>,
    triples: Seq<TripleView>,
) -> bool {
    &&& is_index_perm(perm, pre.len() as int)
    &&& applies_perm(perm, pre, post)
    &&& forall|i: int, j: int|
        0 <= i < j < post.len() ==> #[trigger] avg_rating_ge(post[i].id, post[j].id, ratings, triples)
    &&& forall|i: int, j: int|
        0 <= i < j < post.len() && #[trigger] avg_rating_ge(post[j].id, post[i].id, ratings, triples)
            ==> perm[i] < perm[j]
}

/// The views of the entries held in a pair sequence.
spec fn entry_views_of(ps: Seq<(Entry, AvgRating)>) -> Seq<EntryView> {
    Seq::new(ps.len(), |i: int| ps[i].0.deep_view())
}

/// A sequence of entries that can be sorted by average rating.
pub trait SortByAverageRating: DeepView<V = Seq<EntryView>> {
    /// Stable sort, descending by the exact average of the rating values
    /// linked to each entry through `IsRatedWith` triples.
    fn sort_by_avg_rating(&mut self, ratings: &Vec<Rating>, triples: &Vec<Triple>)
        ensures
            exists|perm: Seq<int>|
                sorted_by_avg_rating(
                    perm,
                    old(self).deep_view(),
                    final(self).deep_view(),
                    ratings.deep_view(),
                    triples.deep_view(),
                ),
    ;
}

impl SortByAverageRating for Vec<Entry> {
    fn sort_by_avg_rating(&mut self, ratings: &Vec<Rating>, triples: &Vec<Triple>) {
        let ghost pre = self.deep_view();
        let ghost rs = ratings.deep_view();
        let ghost ts = triples.deep_view();
        let mut pairs: Vec<(Entry, AvgRating)> = Vec::new();
        let mut i: usize = 0;
        while i < self.len()
            invariant
                i <= self@.len(),
                self.deep_view() == pre,
                pre.len() == self@.len(),
                rs == ratings.deep_view(),
                ts == triples.deep_view(),
                pairs@.len() == i as int,
                forall|k: int|
                    0 <= k < i as int ==> (#[trigger] pairs@[k].0).deep_view() == pre[k],
                forall|k: int|
                    0 <= k < i as int ==> (#[trigger] pairs@[k].1).wf() && pairs@[k].1.sum
                        == avg_rating_num(pre[k].id, rs, ts) && pairs@[k].1.count
                        == avg_rating_den(pre[k].id, rs, ts),
            decreases self@.len() - i,
        {
            let e = self[i].clone();
            let key = e.average_rating(ratings, triples);
            pairs.push((e, key));
            i = i + 1;
        }
        let ghost pairs_pre = pairs@;
        stable_sort_pairs(&mut pairs);
        let ghost perm = choose|p: Seq<int>| stable_sorted_pairs(p, pairs_pre, pairs@);
        let ghost pairs_post = pairs@;
        let ghost post = entry_views_of(pairs_post);
        let ghost n = pre.len() as int;
        proof {
            assert(entry_views_of(pairs_pre) =~= pre);
            assert(applies_perm(perm, pre, post));
            assert forall|a: int, b: int| 0 <= a < b < n implies #[trigger] avg_rating_ge(
                post[a].id,
                post[b].id,
                rs,
                ts,
            ) by {
                assert(pairs_post[a] == pairs_pre[perm[a]]);
                assert(pairs_post[b] == pairs_pre[perm[b]]);
                assert(pairs_post[a].1.key_le(pairs_post[b].1));
            }
            assert forall|a: int, b: int|
                0 <= a < b < n && #[trigger] avg_rating_ge(post[b].id, post[a].id, rs, ts)
                implies perm[a] < perm[b] by {
                assert(pairs_post[a] == pairs_pre[perm[a]]);
                assert(pairs_post[b] == pairs_pre[perm[b]]);
                assert(pairs_post[a].1.key_le(pairs_post[b].1));
                assert(pairs_post[b].1.key_le(pairs_post[a].1));
            }
            assert(sorted_by_avg_rating(perm, pre, post, rs, ts));
        }
        self.clear();
        while pairs.len() > 0
            invariant
                post == entry_views_of(pairs_post),
                post.len() == n,
                pairs_post.len() == n,
                self@.len() + pairs@.len() == n,
                forall|m: int| 0 <= m < pairs@.len() ==> #[trigger] pairs@[m] == pairs_post[
                    self@.len() + m],
                forall|m: int| 0 <= m < self@.len() ==> (#[trigger] self@[m]).deep_view()
                    == post[m],
            decreases pairs@.len(),
        {
            let ghost len_entry = self@.len() as int;
            let ghost ps_entry = pairs@;
            let ghost vs_entry = self@;
            let pair = pairs.remove(0);
            self.push(pair.0);
            proof {
                assert(pair == ps_entry[0] && ps_entry[0] == pairs_post[len_entry]);
                assert forall|m: int| 0 <= m < pairs@.len() implies #[trigger] pairs@[m]
                    == pairs_post[self@.len() + m] by {
                    assert(pairs@[m] == ps_entry[m + 1]);
                    assert(ps_entry[m + 1] == pairs_post[len_entry + m + 1]);
                }
                assert forall|m: int| 0 <= m < self@.len() implies (#[trigger] self@[m]).deep_view()
                    == post[m] by {
                    if m < len_entry {
                        assert(self@[m] == vs_entry[m]);
                        assert(vs_entry[m].deep_view() == post[m]);
                    } else {
                        assert(self@[m] == pair.0);
                        assert(post[m] == pairs_post[m].0.deep_view());
                    }
                }
            }
        }
        proof {
            assert forall|m: int| 0 <= m < n implies self.deep_view()[m] == post[m] by {
                assert(self@[m].deep_view() == post[m]);
            }
            assert(self.deep_view() =~= post);
            assert(sorted_by_avg_rating(perm, pre, self.deep_view(), rs, ts));
        }
    }
}

} // verus!
