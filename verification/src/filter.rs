//! The filter pipeline: bounding-box containment of entries, the category
//! filter, the tag filter with its two combination modes, and the
//! case-insensitive free-text filter.

use vstd::prelude::*;

use crate::entities::{Entry, EntryView, ObjectId, ObjectIdView, Relation, Triple, TripleView};
use crate::geo::{in_bbox_spec, Bbox, Coordinate};
use crate::sort::DistanceTo;
use crate::text::{contains_string, contains_substring, lower_of, lowercase, seq_contains_sub};

verus! {

/// How several requested tags combine: all of them, or at least one.
#[derive(Clone, Copy, Debug, PartialEq, Eq, Structural)]
pub enum Combination {
    And,
    Or,
}

/// The box spanned by the first two coordinates of a parsed bounding-box
/// list (south-west corner first).
pub open spec fn bbox_of_coords(bbox: Seq<Coordinate>) -> Bbox {
    Bbox { south_west: bbox[0], north_east: bbox[1] }
}

/// An entry lies in the box given as a coordinate list iff the list holds
/// at least the two corners and the entry's position lies between the
/// first two; a malformed or non-finite box contains nothing.
pub open spec fn entry_in_bbox(e: EntryView, bbox: Seq<Coordinate>) -> bool {
    bbox.len() >= 2 && in_bbox_spec(e.lat, e.lng, bbox_of_coords(bbox))
}

/// Something that can be tested against a bounding box given as a
/// coordinate-pair list.
pub trait InBBox: DistanceTo {
    /// Whether this thing lies in the box spanned by the first two
    /// coordinates; `false` on a list of fewer than two corners and on
    /// non-finite values.
    fn in_bbox(&self, bbox: &Vec<Coordinate>) -> (r: bool)
        ensures
            r == (bbox@.len() >= 2 && in_bbox_spec(
                self.position().lat,
                self.position().lng,
                bbox_of_coords(bbox@),
            )),
    ;
}

impl InBBox for Entry {
    fn in_bbox(&self, bbox: &Vec<Coordinate>) -> (r: bool) {
        if bbox.len() < 2 {
            return false;
        }
        crate::geo::is_in_bbox(
            &self.lat,
            &self.lng,
            &Bbox { south_west: bbox[0], north_east: bbox[1] },
        )
    }
}

/// The category filter: an entry passes iff it carries at least one of
/// the requested category ids.
pub open spec fn category_filter_matches(e: EntryView, ids: Seq<Seq<char>>) -> bool {
    exists|k: int| 0 <= k < e.categories.len() && ids.contains(#[trigger] e.categories[k])
}

/// Whether the entry carries at least one of the requested category ids.
pub fn entry_matches_categories(e: &Entry, ids: &Vec<String>) -> (r: bool)
    ensures
        r == category_filter_matches(e@, ids.deep_view()),
{
    let mut k: usize = 0;
    while k < e.categories.len()
        invariant
            k <= e.categories@.len(),
            forall|m: int|
                0 <= m < k as int ==> !ids.deep_view().contains(#[trigger] e@.categories[m]),
        decreases e.categories@.len() - k,
    {
        if contains_string(ids, &e.categories[k]) {
            proof {
                assert(e@.categories[k as int] == e.categories@[k as int]@);
            }
            return true;
        }
        proof {
            assert(e@.categories[k as int] == e.categories@[k as int]@);
        }
        k = k + 1;
    }
    false
}

/// Whether a triple links the entry to the tag.
pub open spec fn is_tag_link(t: TripleView, e_id: Seq<char>, tag: Seq<char>) -> bool {
    &&& t.subject matches ObjectIdView::Entry(id) && id == e_id
    &&& t.predicate == Relation::IsTaggedWith
    &&& t.object matches ObjectIdView::Tag(tg) && tg == tag
}

/// An entry carries a tag when its own tag list holds it or an
/// `IsTaggedWith` triple links the entry to it.
pub open spec fn entry_has_tag(e: EntryView, tag: Seq<char>, triples: Seq<TripleView>) -> bool {
    e.tags.contains(tag) || exists|k: int|
        0 <= k < triples.len() && is_tag_link(#[trigger] triples[k], e.id, tag)
}

/// Whether the entry carries the tag, through its tag list or the
/// relation graph.
pub fn entry_carries_tag(e: &Entry, tag: &String, triples: &Vec<Triple>) -> (r: bool)
    ensures
        r == entry_has_tag(e@, tag@, triples.deep_view()),
{
    if contains_string(&e.tags, tag) {
        return true;
    }
    let mut k: usize = 0;
    while k < triples.len()
        invariant
            k <= triples@.len(),
            forall|m: int|
                0 <= m < k as int ==> !is_tag_link(#[trigger] triples.deep_view()[m], e@.id, tag@),
        decreases triples@.len() - k,
    {
        let t = &triples[k];
        proof {
            assert(triples.deep_view()[k as int] == triples@[k as int]@);
        }
        match (&t.subject, &t.predicate, &t.object) {
            (ObjectId::Entry(eid), Relation::IsTaggedWith, ObjectId::Tag(tg)) => {
                if eid.eq(&e.id) && tg.eq(tag) {
                    return true;
                }
            },
            _ => {},
        }
        k = k + 1;
    }
    false
}

/// The tag filter: under `And` every requested tag must be carried, under
/// `Or` at least one.
pub open spec fn tag_filter_matches(
    e: EntryView,
    tags: Seq<Seq<char>>,
    triples: Seq<TripleView>,
    comb: Combination,
) -> bool {
    match comb {
        Combination::And => forall|k: int|
            0 <= k < tags.len() ==> entry_has_tag(e, #[trigger] tags[k], triples),
        Combination::Or => exists|k: int|
            0 <= k < tags.len() && entry_has_tag(e, #[trigger] tags[k], triples),
    }
}

/// Whether the entry passes the tag filter in the given combination mode.
pub fn entry_matches_tags(
    e: &Entry,
    tags: &Vec<String>,
    triples: &Vec<Triple>,
    comb: Combination,
) -> (r: bool)
    ensures
        r == tag_filter_matches(e@, tags.deep_view(), triples.deep_view(), comb),
{
    match comb {
        Combination::And => {
            let mut k: usize = 0;
            while k < tags.len()
                invariant
                    comb == Combination::And,
                    k <= tags@.len(),
                    forall|m: int|
                        0 <= m < k as int ==> entry_has_tag(
                            e@,
                            #[trigger] tags.deep_view()[m],
                            triples.deep_view(),
                        ),
                decreases tags@.len() - k,
            {
                proof {
                    assert(tags.deep_view()[k as int] == tags@[k as int]@);
                }
                if !entry_carries_tag(e, &tags[k], triples) {
                    proof {
                        assert(!entry_has_tag(e@, tags.deep_view()[k as int], triples.deep_view()));
                        assert(comb == Combination::And);
                        assert(!tag_filter_matches(
                            e@,
                            tags.deep_view(),
                            triples.deep_view(),
                            comb,
                        ));
                    }
                    return false;
                }
                k = k + 1;
            }
            true
        },
        Combination::Or => {
            let mut k: usize = 0;
            while k < tags.len()
                invariant
                    comb == Combination::Or,
                    k <= tags@.len(),
                    forall|m: int|
                        0 <= m < k as int ==> !entry_has_tag(
                            e@,
                            #[trigger] tags.deep_view()[m],
                            triples.deep_view(),
                        ),
                decreases tags@.len() - k,
            {
                proof {
                    assert(tags.deep_view()[k as int] == tags@[k as int]@);
                }
                if entry_carries_tag(e, &tags[k], triples) {
                    proof {
                        assert(entry_has_tag(e@, tags.deep_view()[k as int], triples.deep_view()));
                        assert(comb == Combination::Or);
                        assert(tag_filter_matches(
                            e@,
                            tags.deep_view(),
                            triples.deep_view(),
                            comb,
                        ));
                    }
                    return true;
                }
                k = k + 1;
            }
            false
        },
    }
}

/// The free-text filter: a case-insensitive substring match against the
/// entry's title or description.
pub open spec fn text_filter_matches(e: EntryView, txt: Seq<char>) -> bool {
    seq_contains_sub(lower_of(e.title), lower_of(txt)) || seq_contains_sub(
        lower_of(e.description),
        lower_of(txt),
    )
}

/// Whether the folded search text occurs in the entry's folded title or
/// description.
pub fn entry_matches_text(e: &Entry, txt: &str) -> (r: bool)
    ensures
        r == text_filter_matches(e@, txt@),
{
    let needle = lowercase(txt);
    let title = lowercase(e.title.as_str());
    if contains_substring(title.as_str(), needle.as_str()) {
        return true;
    }
    let description = lowercase(e.description.as_str());
    contains_substring(description.as_str(), needle.as_str())
}

} // verus!
