//! The repository abstraction: every storage backend is specified by one
//! abstract state (the views of everything it holds) and by contracts
//! saying how each operation reads or rewrites that state. A failing
//! operation leaves the state as it was: the core relies on there being
//! no partial results.

use vstd::prelude::*;

use crate::entities::{BboxSubscription, BboxSubscriptionView, Category, CategoryView, Comment,
    CommentView, Entry, EntryView, ObjectIdView, Rating, RatingView, Tag, Triple, TripleView,
    User, UserView};
use crate::error::RepoError;

verus! {

/// The abstract state of a repository: what it holds, as views.
#[verifier::ext_equal]
pub struct DbViews {
    pub entries: Seq<EntryView>,
    pub categories: Seq<CategoryView>,
    pub tags: Seq<Seq<char>>,
    pub users: Seq<UserView>,
    pub comments: Seq<CommentView>,
    pub ratings: Seq<RatingView>,
    pub triples: Seq<TripleView>,
    pub bbox_subscriptions: Seq<BboxSubscriptionView>,
}

/// Whether some entry in `s` carries the id.
pub open spec fn has_entry_with_id(s: Seq<EntryView>, id: Seq<char>) -> bool {
    exists|k: int| 0 <= k < s.len() && (#[trigger] s[k]).id == id
}

/// Every entry carrying the id of `e` replaced by `e`.
pub open spec fn entries_replaced(s: Seq<EntryView>, e: EntryView) -> Seq<EntryView> {
    Seq::new(
        s.len(),
        |i: int|
            if s[i].id == e.id {
                e
            } else {
                s[i]
            },
    )
}

/// Whether some user in `s` carries the username.
pub open spec fn has_user_with_name(s: Seq<UserView>, username: Seq<char>) -> bool {
    exists|k: int| 0 <= k < s.len() && (#[trigger] s[k]).username == username
}

/// The users without those carrying the id.
pub open spec fn users_without_id(s: Seq<UserView>, id: Seq<char>) -> Seq<UserView>
    decreases s.len(),
{
    if s.len() == 0 {
        Seq::empty()
    } else {
        let init = users_without_id(s.drop_last(), id);
        if s.last().id == id {
            init
        } else {
            init.push(s.last())
        }
    }
}

/// The subscriptions without those carrying the id.
pub open spec fn subscriptions_without_id(
    s: Seq<BboxSubscriptionView>,
    id: Seq<char>,
) -> Seq<BboxSubscriptionView>
    decreases s.len(),
{
    if s.len() == 0 {
        Seq::empty()
    } else {
        let init = subscriptions_without_id(s.drop_last(), id);
        if s.last().id == id {
            init
        } else {
            init.push(s.last())
        }
    }
}

/// Whether a triple points at the subscription.
pub open spec fn triple_points_at_subscription(t: TripleView, id: Seq<char>) -> bool {
    t.object matches ObjectIdView::BboxSubscription(sid) && sid == id
}

/// The triples without those pointing at the subscription.
pub open spec fn triples_without_subscription(
    s: Seq<TripleView>,
    id: Seq<char>,
) -> Seq<TripleView>
    decreases s.len(),
{
    if s.len() == 0 {
        Seq::empty()
    } else {
        let init = triples_without_subscription(s.drop_last(), id);
        if triple_points_at_subscription(s.last(), id) {
            init
        } else {
            init.push(s.last())
        }
    }
}

/// A storage backend. Each operation either performs exactly the change
/// its contract states, or fails and leaves the state untouched; a lookup
/// that fails with `NotFound` proves the absence of what was asked for.
pub trait Db {
    /// The abstract state this backend holds.
    spec fn state(&self) -> DbViews;

    fn all_entries(&self) -> (r: Result<Vec<Entry>, RepoError>)
        ensures
            r matches Ok(v) ==> v.deep_view() == self.state().entries,
            r matches Err(err) ==> err == RepoError::Other,
    ;

    fn get_entry(&self, id: &str) -> (r: Result<Entry, RepoError>)
        ensures
            match r {
                Ok(e) => self.state().entries.contains(e@) && e@.id == id@,
                Err(err) => {
                    &&& err != RepoError::InvalidVersion
                    &&& err == RepoError::NotFound ==> !has_entry_with_id(
                        self.state().entries,
                        id@,
                    )
                },
            },
    ;

    fn create_entry(&mut self, e: &Entry) -> (r: Result<(), RepoError>)
        ensures
            r is Ok ==> final(self).state() == (DbViews {
                entries: old(self).state().entries.push(e@),
                ..old(self).state()
            }),
            r is Err ==> final(self).state() == old(self).state(),
            r matches Err(err) ==> err == RepoError::Other,
    ;

    fn update_entry(&mut self, e: &Entry) -> (r: Result<(), RepoError>)
        ensures
            r is Ok ==> final(self).state() == (DbViews {
                entries: entries_replaced(old(self).state().entries, e@),
                ..old(self).state()
            }),
            r is Err ==> final(self).state() == old(self).state(),
            r matches Err(err) ==> err != RepoError::InvalidVersion && (err
                == RepoError::NotFound ==> !has_entry_with_id(old(self).state().entries, e@.id)),
    ;

    fn all_categories(&self) -> (r: Result<Vec<Category>, RepoError>)
        ensures
            r matches Ok(v) ==> v.deep_view() == self.state().categories,
            r matches Err(err) ==> err == RepoError::Other,
    ;

    fn create_tag_if_it_does_not_exist(&mut self, t: &Tag) -> (r: Result<(), RepoError>)
        ensures
            r is Ok ==> final(self).state() == (DbViews {
                tags: if old(self).state().tags.contains(t@) {
                    old(self).state().tags
                } else {
                    old(self).state().tags.push(t@)
                },
                ..old(self).state()
            }),
            r is Err ==> final(self).state() == old(self).state(),
            r matches Err(err) ==> err == RepoError::Other,
    ;

    fn all_tags(&self) -> (r: Result<Vec<Tag>, RepoError>)
        ensures
            r matches Ok(v) ==> v.deep_view() == self.state().tags,
            r matches Err(err) ==> err == RepoError::Other,
    ;

    fn all_users(&self) -> (r: Result<Vec<User>, RepoError>)
        ensures
            r matches Ok(v) ==> v.deep_view() == self.state().users,
            r matches Err(err) ==> err == RepoError::Other,
    ;

    fn get_user(&self, username: &str) -> (r: Result<User, RepoError>)
        ensures
            match r {
                Ok(u) => self.state().users.contains(u@) && u@.username == username@,
                Err(err) => {
                    &&& err != RepoError::InvalidVersion
                    &&& err == RepoError::NotFound ==> !has_user_with_name(
                        self.state().users,
                        username@,
                    )
                },
            },
    ;

    fn create_user(&mut self, u: &User) -> (r: Result<(), RepoError>)
        ensures
            r is Ok ==> final(self).state() == (DbViews {
                users: old(self).state().users.push(u@),
                ..old(self).state()
            }),
            r is Err ==> final(self).state() == old(self).state(),
            r matches Err(err) ==> err == RepoError::Other,
    ;

    fn delete_user(&mut self, id: &str) -> (r: Result<(), RepoError>)
        ensures
            r is Ok ==> final(self).state() == (DbViews {
                users: users_without_id(old(self).state().users, id@),
                ..old(self).state()
            }),
            r is Err ==> final(self).state() == old(self).state(),
            r matches Err(err) ==> err == RepoError::Other,
    ;

    fn all_comments(&self) -> (r: Result<Vec<Comment>, RepoError>)
        ensures
            r matches Ok(v) ==> v.deep_view() == self.state().comments,
            r matches Err(err) ==> err == RepoError::Other,
    ;

    fn create_comment(&mut self, c: &Comment) -> (r: Result<(), RepoError>)
        ensures
            r is Ok ==> final(self).state() == (DbViews {
                comments: old(self).state().comments.push(c@),
                ..old(self).state()
            }),
            r is Err ==> final(self).state() == old(self).state(),
            r matches Err(err) ==> err == RepoError::Other,
    ;

    fn all_ratings(&self) -> (r: Result<Vec<Rating>, RepoError>)
        ensures
            r matches Ok(v) ==> v.deep_view() == self.state().ratings,
            r matches Err(err) ==> err == RepoError::Other,
    ;

    fn create_rating(&mut self, rating: &Rating) -> (r: Result<(), RepoError>)
        ensures
            r is Ok ==> final(self).state() == (DbViews {
                ratings: old(self).state().ratings.push(rating@),
                ..old(self).state()
            }),
            r is Err ==> final(self).state() == old(self).state(),
            r matches Err(err) ==> err == RepoError::Other,
    ;

    fn all_triples(&self) -> (r: Result<Vec<Triple>, RepoError>)
        ensures
            r matches Ok(v) ==> v.deep_view() == self.state().triples,
            r matches Err(err) ==> err == RepoError::Other,
    ;

    fn create_triple(&mut self, t: &Triple) -> (r: Result<(), RepoError>)
        ensures
            r is Ok ==> final(self).state() == (DbViews {
                triples: old(self).state().triples.push(t@),
                ..old(self).state()
            }),
            r is Err ==> final(self).state() == old(self).state(),
            r matches Err(err) ==> err == RepoError::Other,
    ;

    fn all_bbox_subscriptions(&self) -> (r: Result<Vec<BboxSubscription>, RepoError>)
        ensures
            r matches Ok(v) ==> v.deep_view() == self.state().bbox_subscriptions,
            r matches Err(err) ==> err == RepoError::Other,
    ;

    fn create_bbox_subscription(&mut self, s: &BboxSubscription) -> (r: Result<(), RepoError>)
        ensures
            r is Ok ==> final(self).state() == (DbViews {
                bbox_subscriptions: old(self).state().bbox_subscriptions.push(s@),
                ..old(self).state()
            }),
            r is Err ==> final(self).state() == old(self).state(),
            r matches Err(err) ==> err == RepoError::Other,
    ;

    /// Deleting a subscription also unlinks it: the triples pointing at
    /// it leave with it.
    fn delete_bbox_subscription(&mut self, id: &str) -> (r: Result<(), RepoError>)
        ensures
            r is Ok ==> final(self).state() == (DbViews {
                bbox_subscriptions: subscriptions_without_id(
                    old(self).state().bbox_subscriptions,
                    id@,
                ),
                triples: triples_without_subscription(old(self).state().triples, id@),
                ..old(self).state()
            }),
            r is Err ==> final(self).state() == old(self).state(),
            r matches Err(err) ==> err == RepoError::Other,
    ;
}

} // verus!
