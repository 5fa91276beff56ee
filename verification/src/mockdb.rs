//! An in-memory storage backend, verified against the repository
//! contracts: every operation performs exactly the change its contract
//! states and never fails.

use vstd::pervasive::cloned;
use vstd::prelude::*;

use crate::db::{entries_replaced, has_entry_with_id, has_user_with_name, subscriptions_without_id,
    triple_points_at_subscription, triples_without_subscription, users_without_id, Db, DbViews};
use crate::entities::{BboxSubscription, Category, Comment, Entry, Rating, Tag, Triple, User};
use crate::error::RepoError;
use crate::text::str_eq;

verus! {

/// A backend holding everything in memory.
pub struct MockDb {
    entries: Vec<Entry>,
    categories: Vec<Category>,
    tags: Vec<Tag>,
    users: Vec<User>,
    comments: Vec<Comment>,
    ratings: Vec<Rating>,
    triples: Vec<Triple>,
    bbox_subscriptions: Vec<BboxSubscription>,
}

impl MockDb {
    /// An empty store.
    pub fn new() -> (db: MockDb)
        ensures
            db.state() == (DbViews {
                entries: Seq::empty(),
                categories: Seq::empty(),
                tags: Seq::empty(),
                users: Seq::empty(),
                comments: Seq::empty(),
                ratings: Seq::empty(),
                triples: Seq::empty(),
                bbox_subscriptions: Seq::empty(),
            }),
    {
        let db = MockDb {
            entries: Vec::new(),
            categories: Vec::new(),
            tags: Vec::new(),
            users: Vec::new(),
            comments: Vec::new(),
            ratings: Vec::new(),
            triples: Vec::new(),
            bbox_subscriptions: Vec::new(),
        };
        proof {
            assert(db.entries.deep_view() =~= Seq::<crate::entities::EntryView>::empty());
            assert(db.categories.deep_view() =~= Seq::<crate::entities::CategoryView>::empty());
            assert(db.tags.deep_view() =~= Seq::<Seq<char>>::empty());
            assert(db.users.deep_view() =~= Seq::<crate::entities::UserView>::empty());
            assert(db.comments.deep_view() =~= Seq::<crate::entities::CommentView>::empty());
            assert(db.ratings.deep_view() =~= Seq::<crate::entities::RatingView>::empty());
            assert(db.triples.deep_view() =~= Seq::<crate::entities::TripleView>::empty());
            assert(db.bbox_subscriptions.deep_view()
                =~= Seq::<crate::entities::BboxSubscriptionView>::empty());
        }
        db
    }
}

impl Db for MockDb {
    closed spec fn state(&self) -> DbViews {
        DbViews {
            entries: self.entries.deep_view(),
            categories: self.categories.deep_view(),
            tags: self.tags.deep_view(),
            users: self.users.deep_view(),
            comments: self.comments.deep_view(),
            ratings: self.ratings.deep_view(),
            triples: self.triples.deep_view(),
            bbox_subscriptions: self.bbox_subscriptions.deep_view(),
        }
    }

    fn all_entries(&self) -> (r: Result<Vec<Entry>, RepoError>) {
        let v = self.entries.clone();
        proof {
            assert forall|i: int| 0 <= i < v@.len() implies v.deep_view()[i]
                == self.entries.deep_view()[i] by {
                assert(cloned::<Entry>(self.entries@[i], v@[i]));
            }
            assert(v.deep_view() =~= self.entries.deep_view());
        }
        Ok(v)
    }

    fn get_entry(&self, id: &str) -> (r: Result<Entry, RepoError>) {
        let mut k: usize = 0;
        while k < self.entries.len()
            invariant
                k <= self.entries@.len(),
                forall|m: int|
                    0 <= m < k as int ==> (#[trigger] self.entries.deep_view()[m]).id != id@,
            decreases self.entries@.len() - k,
        {
            if str_eq(self.entries[k].id.as_str(), id) {
                let e = self.entries[k].clone();
                proof {
                    assert(self.entries.deep_view()[k as int] == e@);
                }
                return Ok(e);
            }
            proof {
                assert(self.entries.deep_view()[k as int] == self.entries@[k as int]@);
            }
            k = k + 1;
        }
        Err(RepoError::NotFound)
    }

    fn create_entry(&mut self, e: &Entry) -> (r: Result<(), RepoError>) {
        self.entries.push(e.clone());
        proof {
            assert(self.entries.deep_view() =~= old(self).entries.deep_view().push(e@));
            assert(self.state() =~= (DbViews {
                entries: old(self).state().entries.push(e@),
                ..old(self).state()
            }));
        }
        Ok(())
    }

    fn update_entry(&mut self, e: &Entry) -> (r: Result<(), RepoError>) {
        let ghost pre = self.entries.deep_view();
        let mut out: Vec<Entry> = Vec::new();
        let mut found = false;
        let mut k: usize = 0;
        while k < self.entries.len()
            invariant
                k <= self.entries@.len(),
                pre == self.entries.deep_view(),
                pre.len() == self.entries@.len(),
                out@.len() == k as int,
                found == exists|m: int| 0 <= m < k as int && (#[trigger] pre[m]).id == e@.id,
                forall|m: int|
                    0 <= m < k as int ==> (#[trigger] out.deep_view()[m]) == (if pre[m].id
                        == e@.id {
                        e@
                    } else {
                        pre[m]
                    }),
            decreases self.entries@.len() - k,
        {
            proof {
                assert(pre[k as int] == self.entries@[k as int]@);
            }
            let ghost out_pre = out.deep_view();
            if str_eq(self.entries[k].id.as_str(), e.id.as_str()) {
                out.push(e.clone());
                found = true;
            } else {
                out.push(self.entries[k].clone());
            }
            proof {
                assert forall|m: int| 0 <= m < k as int + 1 implies (
                #[trigger] out.deep_view()[m]) == (if pre[m].id == e@.id {
                    e@
                } else {
                    pre[m]
                }) by {
                    if m < k as int {
                        assert(out.deep_view()[m] == out_pre[m]);
                    }
                }
            }
            k = k + 1;
        }
        if !found {
            proof {
                assert(!has_entry_with_id(self.state().entries, e@.id));
            }
            return Err(RepoError::NotFound);
        }
        self.entries = out;
        proof {
            assert(self.entries.deep_view() =~= entries_replaced(pre, e@));
            assert(self.state() =~= (DbViews {
                entries: entries_replaced(old(self).state().entries, e@),
                ..old(self).state()
            }));
        }
        Ok(())
    }

    fn all_categories(&self) -> (r: Result<Vec<Category>, RepoError>) {
        let v = self.categories.clone();
        proof {
            assert forall|i: int| 0 <= i < v@.len() implies v.deep_view()[i]
                == self.categories.deep_view()[i] by {
                assert(cloned::<Category>(self.categories@[i], v@[i]));
            }
            assert(v.deep_view() =~= self.categories.deep_view());
        }
        Ok(v)
    }

    fn create_tag_if_it_does_not_exist(&mut self, t: &Tag) -> (r: Result<(), RepoError>) {
        let mut k: usize = 0;
        while k < self.tags.len()
            invariant
                k <= self.tags@.len(),
                forall|m: int| 0 <= m < k as int ==> #[trigger] self.tags.deep_view()[m] != t@,
            decreases self.tags@.len() - k,
        {
            if str_eq(self.tags[k].id.as_str(), t.id.as_str()) {
                proof {
                    assert(self.tags.deep_view()[k as int] == t@);
                    assert(self.state().tags.contains(t@));
                }
                return Ok(());
            }
            proof {
                assert(self.tags.deep_view()[k as int] == self.tags@[k as int]@);
            }
            k = k + 1;
        }
        proof {
            assert(!self.state().tags.contains(t@));
        }
        self.tags.push(t.clone());
        proof {
            assert(self.tags.deep_view() =~= old(self).tags.deep_view().push(t@));
            assert(self.state() =~= (DbViews {
                tags: old(self).state().tags.push(t@),
                ..old(self).state()
            }));
        }
        Ok(())
    }

    fn all_tags(&self) -> (r: Result<Vec<Tag>, RepoError>) {
        let v = self.tags.clone();
        proof {
            assert forall|i: int| 0 <= i < v@.len() implies v.deep_view()[i]
                == self.tags.deep_view()[i] by {
                assert(cloned::<Tag>(self.tags@[i], v@[i]));
            }
            assert(v.deep_view() =~= self.tags.deep_view());
        }
        Ok(v)
    }

    fn all_users(&self) -> (r: Result<Vec<User>, RepoError>) {
        let v = self.users.clone();
        proof {
            assert forall|i: int| 0 <= i < v@.len() implies v.deep_view()[i]
                == self.users.deep_view()[i] by {
                assert(cloned::<User>(self.users@[i], v@[i]));
            }
            assert(v.deep_view() =~= self.users.deep_view());
        }
        Ok(v)
    }

    fn get_user(&self, username: &str) -> (r: Result<User, RepoError>) {
        let mut k: usize = 0;
        while k < self.users.len()
            invariant
                k <= self.users@.len(),
                forall|m: int|
                    0 <= m < k as int ==> (#[trigger] self.users.deep_view()[m]).username
                        != username@,
            decreases self.users@.len() - k,
        {
            if str_eq(self.users[k].username.as_str(), username) {
                let u = self.users[k].clone();
                proof {
                    assert(self.users.deep_view()[k as int] == u@);
                }
                return Ok(u);
            }
            proof {
                assert(self.users.deep_view()[k as int] == self.users@[k as int]@);
            }
            k = k + 1;
        }
        Err(RepoError::NotFound)
    }

    fn create_user(&mut self, u: &User) -> (r: Result<(), RepoError>) {
        self.users.push(u.clone());
        proof {
            assert(self.users.deep_view() =~= old(self).users.deep_view().push(u@));
            assert(self.state() =~= (DbViews {
                users: old(self).state().users.push(u@),
                ..old(self).state()
            }));
        }
        Ok(())
    }

    fn delete_user(&mut self, id: &str) -> (r: Result<(), RepoError>) {
        let ghost pre = self.users.deep_view();
        let mut out: Vec<User> = Vec::new();
        let mut k: usize = 0;
        while k < self.users.len()
            invariant
                k <= self.users@.len(),
                pre == self.users.deep_view(),
                pre.len() == self.users@.len(),
                out.deep_view() =~= users_without_id(pre.take(k as int), id@),
            decreases self.users@.len() - k,
        {
            proof {
                assert(pre.take(k as int + 1).drop_last() =~= pre.take(k as int));
                assert(pre.take(k as int + 1).last() == pre[k as int]);
                assert(pre[k as int] == self.users@[k as int]@);
            }
            if !str_eq(self.users[k].id.as_str(), id) {
                out.push(self.users[k].clone());
            }
            proof {
                assert(out.deep_view() =~= users_without_id(pre.take(k as int + 1), id@));
            }
            k = k + 1;
        }
        self.users = out;
        proof {
            assert(pre.take(pre.len() as int) =~= pre);
            assert(self.state() =~= (DbViews {
                users: users_without_id(old(self).state().users, id@),
                ..old(self).state()
            }));
        }
        Ok(())
    }

    fn all_comments(&self) -> (r: Result<Vec<Comment>, RepoError>) {
        let v = self.comments.clone();
        proof {
            assert forall|i: int| 0 <= i < v@.len() implies v.deep_view()[i]
                == self.comments.deep_view()[i] by {
                assert(cloned::<Comment>(self.comments@[i], v@[i]));
            }
            assert(v.deep_view() =~= self.comments.deep_view());
        }
        Ok(v)
    }

    fn create_comment(&mut self, c: &Comment) -> (r: Result<(), RepoError>) {
        self.comments.push(c.clone());
        proof {
            assert(self.comments.deep_view() =~= old(self).comments.deep_view().push(c@));
            assert(self.state() =~= (DbViews {
                comments: old(self).state().comments.push(c@),
                ..old(self).state()
            }));
        }
        Ok(())
    }

    fn all_ratings(&self) -> (r: Result<Vec<Rating>, RepoError>) {
        let v = self.ratings.clone();
        proof {
            assert forall|i: int| 0 <= i < v@.len() implies v.deep_view()[i]
                == self.ratings.deep_view()[i] by {
                assert(cloned::<Rating>(self.ratings@[i], v@[i]));
            }
            assert(v.deep_view() =~= self.ratings.deep_view());
        }
        Ok(v)
    }

    fn create_rating(&mut self, rating: &Rating) -> (r: Result<(), RepoError>) {
        self.ratings.push(rating.clone());
        proof {
            assert(self.ratings.deep_view() =~= old(self).ratings.deep_view().push(rating@));
            assert(self.state() =~= (DbViews {
                ratings: old(self).state().ratings.push(rating@),
                ..old(self).state()
            }));
        }
        Ok(())
    }

    fn all_triples(&self) -> (r: Result<Vec<Triple>, RepoError>) {
        let v = self.triples.clone();
        proof {
            assert forall|i: int| 0 <= i < v@.len() implies v.deep_view()[i]
                == self.triples.deep_view()[i] by {
                assert(cloned::<Triple>(self.triples@[i], v@[i]));
            }
            assert(v.deep_view() =~= self.triples.deep_view());
        }
        Ok(v)
    }

    fn create_triple(&mut self, t: &Triple) -> (r: Result<(), RepoError>) {
        self.triples.push(t.clone());
        proof {
            assert(self.triples.deep_view() =~= old(self).triples.deep_view().push(t@));
            assert(self.state() =~= (DbViews {
                triples: old(self).state().triples.push(t@),
                ..old(self).state()
            }));
        }
        Ok(())
    }

    fn all_bbox_subscriptions(&self) -> (r: Result<Vec<BboxSubscription>, RepoError>) {
        let v = self.bbox_subscriptions.clone();
        proof {
            assert forall|i: int| 0 <= i < v@.len() implies v.deep_view()[i]
                == self.bbox_subscriptions.deep_view()[i] by {
                assert(cloned::<BboxSubscription>(self.bbox_subscriptions@[i], v@[i]));
            }
            assert(v.deep_view() =~= self.bbox_subscriptions.deep_view());
        }
        Ok(v)
    }

    fn create_bbox_subscription(&mut self, s: &BboxSubscription) -> (r: Result<(), RepoError>) {
        self.bbox_subscriptions.push(s.clone());
        proof {
            assert(self.bbox_subscriptions.deep_view() =~= old(
                self,
            ).bbox_subscriptions.deep_view().push(s@));
            assert(self.state() =~= (DbViews {
                bbox_subscriptions: old(self).state().bbox_subscriptions.push(s@),
                ..old(self).state()
            }));
        }
        Ok(())
    }

    fn delete_bbox_subscription(&mut self, id: &str) -> (r: Result<(), RepoError>) {
        let ghost pre_subs = self.bbox_subscriptions.deep_view();
        let ghost pre_triples = self.triples.deep_view();
        let mut out: Vec<BboxSubscription> = Vec::new();
        let mut k: usize = 0;
        while k < self.bbox_subscriptions.len()
            invariant
                k <= self.bbox_subscriptions@.len(),
                pre_subs == self.bbox_subscriptions.deep_view(),
                pre_subs.len() == self.bbox_subscriptions@.len(),
                out.deep_view() =~= subscriptions_without_id(pre_subs.take(k as int), id@),
            decreases self.bbox_subscriptions@.len() - k,
        {
            proof {
                assert(pre_subs.take(k as int + 1).drop_last() =~= pre_subs.take(k as int));
                assert(pre_subs.take(k as int + 1).last() == pre_subs[k as int]);
                assert(pre_subs[k as int] == self.bbox_subscriptions@[k as int]@);
            }
            if !str_eq(self.bbox_subscriptions[k].id.as_str(), id) {
                out.push(self.bbox_subscriptions[k].clone());
            }
            proof {
                assert(out.deep_view() =~= subscriptions_without_id(
                    pre_subs.take(k as int + 1),
                    id@,
                ));
            }
            k = k + 1;
        }
        let mut tout: Vec<Triple> = Vec::new();
        let mut j: usize = 0;
        while j < self.triples.len()
            invariant
                j <= self.triples@.len(),
                pre_triples == self.triples.deep_view(),
                pre_triples.len() == self.triples@.len(),
                tout.deep_view() =~= triples_without_subscription(
                    pre_triples.take(j as int),
                    id@,
                ),
            decreases self.triples@.len() - j,
        {
            proof {
                assert(pre_triples.take(j as int + 1).drop_last() =~= pre_triples.take(j as int));
                assert(pre_triples.take(j as int + 1).last() == pre_triples[j as int]);
                assert(pre_triples[j as int] == self.triples@[j as int]@);
            }
            let keep = match &self.triples[j].object {
                crate::entities::ObjectId::BboxSubscription(sid) => !str_eq(sid.as_str(), id),
                _ => true,
            };
            if keep {
                tout.push(self.triples[j].clone());
            }
            proof {
                assert(tout.deep_view() =~= triples_without_subscription(
                    pre_triples.take(j as int + 1),
                    id@,
                ));
            }
            j = j + 1;
        }
        self.bbox_subscriptions = out;
        self.triples = tout;
        proof {
            assert(pre_subs.take(pre_subs.len() as int) =~= pre_subs);
            assert(pre_triples.take(pre_triples.len() as int) =~= pre_triples);
            assert(self.state() =~= (DbViews {
                bbox_subscriptions: subscriptions_without_id(
                    old(self).state().bbox_subscriptions,
                    id@,
                ),
                triples: triples_without_subscription(old(self).state().triples, id@),
                ..old(self).state()
            }));
        }
        Ok(())
    }
}

} // verus!
