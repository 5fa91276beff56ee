//! A stable sort over pairs of an element and a precomputed ranking key.
//!
//! The key type supplies a total preorder ("may stand at or before").
//! The sort promises, through an explicit index permutation: the result is
//! a rearrangement of the input, it is ordered by the key relation, and
//! elements whose keys rank equally keep their input order (stability).

use vstd::prelude::*;

use crate::entities::{Entry, EntryView};
use crate::geo::{distance, distance_spec, Coordinate, Distance};

verus! {

/// A ranking key: a total preorder `key_le` ("ranks at or before") with an
/// executable decision procedure.
pub trait SortKey: Sized {
    /// Well-formedness of a key; the order laws hold for well-formed keys.
    spec fn wf(self) -> bool;

    /// `self` may stand at or before `other`.
    spec fn key_le(self, other: Self) -> bool;

    /// The relation is total.
    proof fn key_le_total(a: Self, b: Self)
        requires
            a.wf(),
            b.wf(),
        ensures
            a.key_le(b) || b.key_le(a),
    ;

    /// The relation is transitive.
    proof fn key_le_trans(a: Self, b: Self, c: Self)
        requires
            a.wf(),
            b.wf(),
            c.wf(),
            a.key_le(b),
            b.key_le(c),
        ensures
            a.key_le(c),
    ;

    /// Executable comparison.
    fn key_le_exec(&self, other: &Self) -> (r: bool)
        requires
            self.wf(),
            other.wf(),
        ensures
            r == self.key_le(*other),
    ;
}

/// Two keys rank equally.
pub open spec fn key_equiv<K: SortKey>(a: K, b: K) -> bool {
    a.key_le(b) && b.key_le(a)
}

/// `perm` is a permutation of the positions `0 .. n`.
pub open spec fn is_index_perm(perm: Seq<int>, n: int) -> bool {
    &&& perm.len() == n
    &&& forall|i: int| 0 <= i < n ==> 0 <= #[trigger] perm[i] < n
    &&& forall|i: int, j: int| 0 <= i < j < n ==> perm[i] != perm[j]
}

/// The values an index permutation takes on the positions `0 .. k`.
spec fn perm_image(perm: Seq<int>, k: int) -> Set<int> {
    Set::new(|v: int| exists|i: int| 0 <= i < k && perm[i] == v)
}

proof fn lemma_perm_image_len(perm: Seq<int>, n: int, k: int)
    requires
        is_index_perm(perm, n),
        0 <= k <= n,
    ensures
        perm_image(perm, k).finite(),
        perm_image(perm, k).len() == k,
    decreases k,
{
    broadcast use vstd::set::group_set_axioms;

    if k == 0 {
        assert(perm_image(perm, 0) =~= Set::<int>::empty());
    } else {
        lemma_perm_image_len(perm, n, k - 1);
        if perm_image(perm, k - 1).contains(perm[k - 1]) {
            let i = choose|i: int| 0 <= i < k - 1 && (#[trigger] perm[i]) == perm[k - 1];
            assert(false);
        }
        assert(perm_image(perm, k) =~= perm_image(perm, k - 1).insert(perm[k - 1]));
        vstd::set::axiom_set_insert_len(perm_image(perm, k - 1), perm[k - 1]);
    }
}

/// Every position below `n` is hit: an index permutation maps `0 .. n`
/// onto itself, not merely into it.
pub proof fn lemma_perm_preimage(perm: Seq<int>, n: int, j: int)
    requires
        is_index_perm(perm, n),
        0 <= j < n,
    ensures
        exists|i: int| 0 <= i < n && #[trigger] perm[i] == j,
{
    broadcast use vstd::set::group_set_axioms;

    if !(exists|i: int| 0 <= i < n && #[trigger] perm[i] == j) {
        lemma_perm_image_len(perm, n, n);
        let img = perm_image(perm, n);
        let range = vstd::set_lib::set_int_range(0, n);
        vstd::set_lib::lemma_int_range(0, n);
        assert(img.subset_of(range.remove(j))) by {
            assert forall|v: int| img.contains(v) implies range.remove(j).contains(v) by {
                let i = choose|i: int| 0 <= i < n && (#[trigger] perm[i]) == v;
                assert(v != j);
            }
        }
        vstd::set::axiom_set_remove_len(range, j);
        vstd::set_lib::lemma_len_subset(img, range.remove(j));
        assert(false);
    }
}

/// `post` is `pre` rearranged by `perm`: the element at position `i` of
/// `post` came from position `perm[i]` of `pre`.
pub open spec fn applies_perm<E>(perm: Seq<int>, pre: Seq<E>, post: Seq<E>) -> bool {
    &&& pre.len() == perm.len()
    &&& post.len() == perm.len()
    &&& forall|i: int| 0 <= i < perm.len() ==> post[i] == pre[#[trigger] perm[i]]
}

/// Every pair key is well-formed.
pub open spec fn pair_keys_wf<T, K: SortKey>(s: Seq<(T, K)>) -> bool {
    forall|i: int| 0 <= i < s.len() ==> (#[trigger] s[i].1).wf()
}

/// The pair sequence is ordered by the key relation.
pub open spec fn sorted_pairs<T, K: SortKey>(s: Seq<(T, K)>) -> bool {
    forall|i: int, j: int|
        0 <= i < j < s.len() ==> (#[trigger] s[i].1).key_le(#[trigger] s[j].1)
}

/// Pairs whose keys rank equally keep their input order.
pub open spec fn stable_pairs<T, K: SortKey>(perm: Seq<int>, post: Seq<(T, K)>) -> bool {
    forall|i: int, j: int|
        0 <= i < j < post.len() && key_equiv(#[trigger] post[i].1, #[trigger] post[j].1)
            ==> perm[i] < perm[j]
}

/// The full statement of a stable sort of `pre` into `post` along `perm`.
pub open spec fn stable_sorted_pairs<T, K: SortKey>(
    perm: Seq<int>,
    pre: Seq<(T, K)>,
    post: Seq<(T, K)>,
) -> bool {
    &&& is_index_perm(perm, pre.len() as int)
    &&& applies_perm(perm, pre, post)
    &&& sorted_pairs(post)
    &&& stable_pairs(perm, post)
}

/// Stable insertion sort of element/key pairs, ordered by the key
/// relation.
pub fn stable_sort_pairs<T, K: SortKey + Copy>(v: &mut Vec<(T, K)>)
    requires
        pair_keys_wf(old(v)@),
    ensures
        exists|perm: Seq<int>| stable_sorted_pairs(perm, old(v)@, final(v)@),
{
    let ghost pre = v@;
    let ghost n = v@.len() as int;
    let ghost mut perm: Seq<int> = Seq::new(pre.len(), |k: int| k);
    let mut i: usize = 1;
    proof {
        assert(applies_perm(perm, pre, v@));
    }
    while i < v.len()
        invariant
            1 <= i,
            v@.len() == n,
            pre.len() == n,
            pair_keys_wf(pre),
            is_index_perm(perm, n),
            applies_perm(perm, pre, v@),
            pair_keys_wf(v@),
            forall|a: int, b: int|
                0 <= a < b < i && b < n ==> (#[trigger] v@[a].1).key_le(#[trigger] v@[b].1),
            forall|a: int, b: int|
                0 <= a < b < i && b < n && key_equiv(#[trigger] v@[a].1, #[trigger] v@[b].1)
                    ==> perm[a] < perm[b],
            forall|k: int| i <= k < n ==> #[trigger] perm[k] == k,
            forall|a: int| 0 <= a < i && a < n ==> #[trigger] perm[a] < i,
        decreases v@.len() - i,
    {
        let ghost v_outer = v@;
        let ghost perm_outer = perm;
        proof {
            assert(forall|k: int|
                0 <= k < n ==> (#[trigger] v@[k].1) == pre[perm[k]].1 && v@[k].1.wf());
        }
        let cur_key: K = v[i].1;
        let mut t: usize = i;
        while t > 0 && !(v[t - 1].1.key_le_exec(&cur_key))
            invariant
                0 <= t <= i < v@.len(),
                v@ == v_outer,
                cur_key == v@[i as int].1,
                pair_keys_wf(pre),
                pair_keys_wf(v@),
                is_index_perm(perm, n),
                applies_perm(perm, pre, v@),
                forall|k: int| t <= k < i ==> !(#[trigger] v@[k].1).key_le(cur_key),
            decreases t,
        {
            t = t - 1;
        }
        // Rotate the element at `i` down to position `t`.
        if t < i {
            let (e, k) = v.remove(i);
            v.insert(t, (e, k));
            proof {
                let moved = perm_outer[i as int];
                perm = perm_outer.remove(i as int).insert(t as int, moved);
                let w = v@;
                let ti = t as int;
                let ii = i as int;
                // How the rotation rearranges positions.
                assert forall|m: int| 0 <= m < n implies #[trigger] w[m] == (if m < ti {
                    v_outer[m]
                } else if m == ti {
                    v_outer[ii]
                } else if m <= ii {
                    v_outer[m - 1]
                } else {
                    v_outer[m]
                }) by {}
                assert forall|m: int| 0 <= m < n implies #[trigger] perm[m] == (if m < ti {
                    perm_outer[m]
                } else if m == ti {
                    perm_outer[ii]
                } else if m <= ii {
                    perm_outer[m - 1]
                } else {
                    perm_outer[m]
                }) by {}
                assert(is_index_perm(perm, n));
                assert(applies_perm(perm, pre, w));
                assert forall|k: int| 0 <= k < n implies (#[trigger] w[k].1).wf() by {
                    assert(w[k] == pre[perm[k]]);
                }
                // All keys in the rotated range rank strictly after the
                // moved element, so it may stand before them; everything
                // at or before the stop position may stand before it.
                assert forall|k: int| ti <= k < ii + 1 && k != ti implies cur_key.key_le(
                    w[k].1,
                ) && !key_equiv(w[k].1, cur_key) by {
                    assert(w[k].1 == v_outer[k - 1].1);
                    assert(!v_outer[k - 1].1.key_le(cur_key));
                    K::key_le_total(v_outer[k - 1].1, cur_key);
                }
                assert forall|a: int| 0 <= a < ti implies w[a].1.key_le(cur_key) by {
                    assert(w[a].1 == v_outer[a].1);
                    if a < ti - 1 {
                        assert(v_outer[a].1.key_le(v_outer[ti - 1].1));
                        K::key_le_trans(v_outer[a].1, v_outer[ti - 1].1, cur_key);
                    }
                }
                // The prefix of length i + 1 is ordered again.
                assert forall|a: int, b: int| 0 <= a < b < ii + 1 implies (
                #[trigger] w[a].1).key_le(#[trigger] w[b].1) by {
                    if b < ti {
                        assert(w[a].1 == v_outer[a].1 && w[b].1 == v_outer[b].1);
                    } else if b == ti {
                        assert(w[b].1 == cur_key);
                    } else if a == ti {
                        assert(w[a].1 == cur_key && cur_key.key_le(w[b].1));
                    } else if a < ti {
                        assert(w[a].1.key_le(cur_key) && cur_key.key_le(w[b].1));
                        K::key_le_trans(w[a].1, cur_key, w[b].1);
                    } else {
                        assert(w[a].1 == v_outer[a - 1].1 && w[b].1 == v_outer[b - 1].1);
                    }
                }
                // Stability is kept: equally ranked pairs in the prefix
                // keep their original order.
                assert forall|a: int, b: int|
                    0 <= a < b < ii + 1 && key_equiv(#[trigger] w[a].1, #[trigger] w[b].1)
                        implies perm[a] < perm[b] by {
                    if b < ti {
                    } else if b == ti {
                        assert(perm[b] == perm_outer[ii] == ii);
                        assert(perm[a] == perm_outer[a] < i);
                    } else if a == ti {
                        assert(!key_equiv(w[b].1, w[a].1));
                        assert(false);
                    } else if a < ti {
                        assert(perm[a] == perm_outer[a] && perm[b] == perm_outer[b - 1]);
                    } else {
                        assert(perm[a] == perm_outer[a - 1] && perm[b] == perm_outer[b - 1]);
                    }
                }
                assert(forall|k: int| ii + 1 <= k < n ==> #[trigger] perm[k] == k);
                assert(forall|a: int| 0 <= a < ii + 1 ==> #[trigger] perm[a] < ii + 1);
            }
        } else {
            proof {
                // The element already stands at its place; the prefix of
                // length i + 1 is ordered.
                assert forall|a: int, b: int| 0 <= a < b < i as int + 1 implies (
                #[trigger] v@[a].1).key_le(#[trigger] v@[b].1) by {
                    if b == i as int && a < i as int - 1 {
                        assert(v@[a].1.key_le(v@[i as int - 1].1));
                        K::key_le_trans(v@[a].1, v@[i as int - 1].1, cur_key);
                    }
                }
                assert forall|a: int, b: int|
                    0 <= a < b < i as int + 1 && key_equiv(#[trigger] v@[a].1, #[trigger] v@[b].1)
                        implies perm[a] < perm[b] by {
                    if b == i as int {
                        assert(perm[b] == i as int);
                        assert(perm[a] < i as int);
                    }
                }
            }
        }
        i = i + 1;
    }
    proof {
        assert(stable_sorted_pairs(perm, pre, v@));
    }
}

impl SortKey for Distance {
    open spec fn wf(self) -> bool {
        true
    }

    /// Ranks at or before: any distance before a non-finite one, finite
    /// distances by their magnitude, so the sort is ascending and entries
    /// with no usable position come last.
    open spec fn key_le(self, other: Self) -> bool {
        match other {
            Distance::NonFinite => true,
            Distance::Finite(db) => match self {
                Distance::Finite(da) => da <= db,
                Distance::NonFinite => false,
            },
        }
    }

    proof fn key_le_total(a: Self, b: Self) {
    }

    proof fn key_le_trans(a: Self, b: Self, c: Self) {
    }

    fn key_le_exec(&self, other: &Self) -> (r: bool) {
        match (self, other) {
            (_, Distance::NonFinite) => true,
            (Distance::Finite(da), Distance::Finite(db)) => *da <= *db,
            (Distance::NonFinite, Distance::Finite(_)) => false,
        }
    }
}

/// The position of an entry, from its view.
pub open spec fn entry_position(e: EntryView) -> Coordinate {
    Coordinate { lat: e.lat, lng: e.lng }
}

/// The relative distance from an entry to a reference coordinate.
pub open spec fn entry_distance(e: EntryView, c: Coordinate) -> Distance {
    distance_spec(entry_position(e), c)
}

/// Something standing at a position whose distance to a reference
/// coordinate can be measured.
pub trait DistanceTo {
    /// Where this thing stands.
    spec fn position(&self) -> Coordinate;

    /// The relative (squared planar) distance from this thing to `c`.
    fn distance_to(&self, c: &Coordinate) -> (d: Distance)
        ensures
            d == distance_spec(self.position(), *c),
    ;
}

impl DistanceTo for Entry {
    open spec fn position(&self) -> Coordinate {
        Coordinate { lat: self.lat, lng: self.lng }
    }

    fn distance_to(&self, c: &Coordinate) -> (d: Distance) {
        distance(&Coordinate { lat: self.lat, lng: self.lng }, c)
    }
}

/// The full statement of the distance sort: `post` is `pre` rearranged by
/// the index permutation `perm`, ascending by distance to `c`; every entry
/// with a non-finite coordinate stands after every entry with a finite
/// one, and entries at equal distance keep their input order (stability).
pub open spec fn sorted_by_distance(
    perm: Seq<int>,
    pre: Seq<EntryView>,
    post: Seq<EntryView>,
    c: Coordinate,
) -> bool {
    &&& is_index_perm(perm, pre.len() as int)
    &&& applies_perm(perm, pre, post)
    &&& forall|i: int, j: int|
        0 <= i < j < post.len() ==> (#[trigger] entry_distance(post[i], c)).key_le(
            #[trigger] entry_distance(post[j], c),
        )
    &&& forall|i: int, j: int|
        0 <= i < j < post.len() && !(#[trigger] entry_position(post[i])).is_finite() ==> !(
        #[trigger] entry_position(post[j])).is_finite()
    &&& forall|i: int, j: int|
        0 <= i < j < post.len() && key_equiv(
            #[trigger] entry_distance(post[i], c),
            #[trigger] entry_distance(post[j], c),
        ) ==> perm[i] < perm[j]
}

/// A sequence of entries that can be sorted by distance to a reference
/// coordinate.
pub trait SortByDistanceTo: DeepView<V = Seq<EntryView>> {
    /// Stable sort ascending by distance to `c`; entries with a
    /// non-finite coordinate sort after all others. A non-finite
    /// reference coordinate leaves the sequence unchanged. Never fails,
    /// whatever the coordinates hold.
    fn sort_by_distance_to(&mut self, c: &Coordinate)
        ensures
            c.is_finite() ==> exists|perm: Seq<int>|
                sorted_by_distance(perm, old(self).deep_view(), final(self).deep_view(), *c),
            !c.is_finite() ==> final(self).deep_view() == old(self).deep_view(),
    ;
}

/// The views of the entries held in a pair sequence.
spec fn dist_entry_views_of(ps: Seq<(Entry, Distance)>) -> Seq<EntryView> {
    Seq::new(ps.len(), |i: int| ps[i].0.deep_view())
}

impl SortByDistanceTo for Vec<Entry> {
    fn sort_by_distance_to(&mut self, c: &Coordinate) {
        if !c.finite() {
            return ;
        }
        let ghost pre = self.deep_view();
        let mut pairs: Vec<(Entry, Distance)> = Vec::new();
        let mut i: usize = 0;
        while i < self.len()
            invariant
                i <= self@.len(),
                self.deep_view() == pre,
                pre.len() == self@.len(),
                pairs@.len() == i as int,
                forall|k: int|
                    0 <= k < i as int ==> (#[trigger] pairs@[k].0).deep_view() == pre[k],
                forall|k: int|
                    0 <= k < i as int ==> #[trigger] pairs@[k].1 == entry_distance(pre[k], *c),
            decreases self@.len() - i,
        {
            let e = self[i].clone();
            let key = e.distance_to(c);
            pairs.push((e, key));
            i = i + 1;
        }
        let ghost pairs_pre = pairs@;
        stable_sort_pairs(&mut pairs);
        let ghost perm = choose|p: Seq<int>| stable_sorted_pairs(p, pairs_pre, pairs@);
        let ghost pairs_post = pairs@;
        let ghost post = dist_entry_views_of(pairs_post);
        let ghost n = pre.len() as int;
        proof {
            assert(dist_entry_views_of(pairs_pre) =~= pre);
            assert(applies_perm(perm, pre, post));
            assert forall|a: int, b: int| 0 <= a < b < n implies (#[trigger] entry_distance(
                post[a],
                *c,
            )).key_le(#[trigger] entry_distance(post[b], *c)) by {
                assert(pairs_post[a] == pairs_pre[perm[a]]);
                assert(pairs_post[b] == pairs_pre[perm[b]]);
                assert(pairs_post[a].1.key_le(pairs_post[b].1));
            }
            assert forall|a: int, b: int|
                0 <= a < b < n && !(#[trigger] entry_position(post[a])).is_finite() implies !(
            #[trigger] entry_position(post[b])).is_finite() by {
                assert(entry_distance(post[a], *c).key_le(entry_distance(post[b], *c)));
                assert(entry_distance(post[a], *c) is NonFinite);
            }
            assert forall|a: int, b: int|
                0 <= a < b < n && key_equiv(
                    #[trigger] entry_distance(post[a], *c),
                    #[trigger] entry_distance(post[b], *c),
                ) implies perm[a] < perm[b] by {
                assert(pairs_post[a] == pairs_pre[perm[a]]);
                assert(pairs_post[b] == pairs_pre[perm[b]]);
                assert(pairs_post[a].1 == entry_distance(post[a], *c));
                assert(pairs_post[b].1 == entry_distance(post[b], *c));
                assert(key_equiv(pairs_post[a].1, pairs_post[b].1));
            }
            assert(sorted_by_distance(perm, pre, post, *c));
        }
        self.clear();
        while pairs.len() > 0
            invariant
                post == dist_entry_views_of(pairs_post),
                post.len() == n,
                pairs_post.len() == n,
                self@.len() + pairs@.len() == n,
                forall|m: int| 0 <= m < pairs@.len() ==> #[trigger] pairs@[m] == pairs_post[
                    self@.len() + m],
                forall|m: int| 0 <= m < self@.len() ==> (#[trigger] self@[m]).deep_view()
                    == post[m],
            decreases pairs@.len(),
        {
            let ghost len_entry = self@.len() as int;
            let ghost ps_entry = pairs@;
            let ghost vs_entry = self@;
            let pair = pairs.remove(0);
            self.push(pair.0);
            proof {
                assert(pair == ps_entry[0] && ps_entry[0] == pairs_post[len_entry]);
                assert forall|m: int| 0 <= m < pairs@.len() implies #[trigger] pairs@[m]
                    == pairs_post[self@.len() + m] by {
                    assert(pairs@[m] == ps_entry[m + 1]);
                    assert(ps_entry[m + 1] == pairs_post[len_entry + m + 1]);
                }
                assert forall|m: int| 0 <= m < self@.len() implies (#[trigger] self@[m]).deep_view()
                    == post[m] by {
                    if m < len_entry {
                        assert(self@[m] == vs_entry[m]);
                        assert(vs_entry[m].deep_view() == post[m]);
                    } else {
                        assert(self@[m] == pair.0);
                        assert(post[m] == pairs_post[m].0.deep_view());
                    }
                }
            }
        }
        proof {
            assert forall|m: int| 0 <= m < n implies self.deep_view()[m] == post[m] by {
                assert(self@[m].deep_view() == post[m]);
            }
            assert(self.deep_view() =~= post);
            assert(sorted_by_distance(perm, pre, self.deep_view(), *c));
        }
    }
}

} // verus!
