//! The use-case layer: the transactional operations of the directory
//! (creating, updating and rating entries, users and logins, bounding-box
//! subscriptions, notification lookup) and the bounded-search algorithm,
//! all reading and writing through the repository abstraction.

use vstd::pervasive::VecAdditionalExecFns;
use vstd::prelude::*;

use crate::db::{has_entry_with_id, has_user_with_name, subscriptions_without_id,
    triples_without_subscription, Db, DbViews};
use crate::entities::{BboxSubscription, BboxSubscriptionView, Comment, CommentView, Entry,
    EntryView, ObjectId, ObjectIdView, Rating, RatingContext, RatingView, Relation, Triple,
    TripleView, User, UserView};
use crate::error::{Error, ParameterError, RepoError};
use crate::geo::Coordinate;
use crate::ratings::AvgRating;
use crate::sort::SortKey;
use crate::text::{contains_string, str_eq};

verus! {

/// The fields a caller supplies to create an entry.
#[derive(Debug, Clone)]
pub struct NewEntry {
    pub title: String,
    pub description: String,
    pub lat: crate::geo::Degrees,
    pub lng: crate::geo::Degrees,
    pub street: Option<String>,
    pub zip: Option<String>,
    pub city: Option<String>,
    pub country: Option<String>,
    pub email: Option<String>,
    pub telephone: Option<String>,
    pub homepage: Option<String>,
    pub categories: Vec<String>,
    pub tags: Vec<String>,
    pub license: String,
}

/// The fields a caller supplies to register a user.
#[derive(Debug, Clone)]
pub struct NewUser {
    pub username: String,
    pub password: String,
    pub email: String,
}

/// The credentials a caller supplies to log in.
#[derive(Debug, Clone)]
pub struct Login {
    pub username: String,
    pub password: String,
}

/// The fields a caller supplies to replace an entry.
#[derive(Debug, Clone)]
pub struct UpdateEntry {
    pub id: String,
    pub osm_node: Option<u64>,
    pub version: u64,
    pub title: String,
    pub description: String,
    pub lat: crate::geo::Degrees,
    pub lng: crate::geo::Degrees,
    pub street: Option<String>,
    pub zip: Option<String>,
    pub city: Option<String>,
    pub country: Option<String>,
    pub email: Option<String>,
    pub telephone: Option<String>,
    pub homepage: Option<String>,
    pub categories: Vec<String>,
    pub tags: Vec<String>,
}

/// The fields a caller supplies to rate an entry.
#[derive(Debug, Clone)]
pub struct RateEntry {
    pub entry: String,
    pub title: String,
    pub value: i8,
    pub context: RatingContext,
    pub comment: String,
    pub source: Option<String>,
    pub user: Option<String>,
}

/// Whether a triple states that `rating_id` is commented with some
/// comment.
pub open spec fn is_comment_link(t: TripleView, rating_id: Seq<char>) -> bool {
    &&& t.subject matches ObjectIdView::Rating(rid) && rid == rating_id
    &&& t.predicate == Relation::IsCommentedWith
    &&& t.object is Comment
}

/// The comment id a comment link points at.
pub open spec fn comment_link_target(t: TripleView) -> Seq<char> {
    match t.object {
        ObjectIdView::Comment(cid) => cid,
        _ => Seq::empty(),
    }
}

/// The ids of the comments attached to `rating_id`, in triple order.
pub open spec fn comment_ids_for_rating(triples: Seq<TripleView>, rating_id: Seq<char>) -> Seq<
    Seq<char>,
>
    decreases triples.len(),
{
    if triples.len() == 0 {
        Seq::empty()
    } else {
        let init = comment_ids_for_rating(triples.drop_last(), rating_id);
        if is_comment_link(triples.last(), rating_id) {
            init.push(comment_link_target(triples.last()))
        } else {
            init
        }
    }
}

/// The comment ids attached to a rating through `IsCommentedWith`
/// triples.
pub fn get_comment_ids_for_rating_id(triples: &Vec<Triple>, rating_id: &str) -> (ids: Vec<String>)
    ensures
        ids.deep_view() == comment_ids_for_rating(triples.deep_view(), rating_id@),
{
    let ghost s = triples.deep_view();
    let mut ids: Vec<String> = Vec::new();
    let mut i: usize = 0;
    while i < triples.len()
        invariant
            i <= triples.len(),
            s == triples.deep_view(),
            s.len() == triples@.len(),
            ids.deep_view() =~= comment_ids_for_rating(s.take(i as int), rating_id@),
        decreases triples.len() - i,
    {
        proof {
            assert(s.take(i as int + 1).drop_last() =~= s.take(i as int));
            assert(s.take(i as int + 1).last() == s[i as int]);
            assert(s[i as int] == triples@[i as int]@);
        }
        let t = &triples[i];
        match (&t.subject, &t.predicate, &t.object) {
            (ObjectId::Rating(rid), Relation::IsCommentedWith, ObjectId::Comment(cid)) => {
                if str_eq(rid.as_str(), rating_id) {
                    ids.push(cid.clone());
                }
            },
            _ => {},
        }
        proof {
            assert(ids.deep_view() =~= comment_ids_for_rating(s.take(i as int + 1), rating_id@));
        }
        i = i + 1;
    }
    proof {
        assert(s.take(triples@.len() as int) =~= s);
    }
    ids
}

/// The user named by the last `CreatedBy` triple whose subject is
/// `subject`; with several such triples the last one wins.
pub open spec fn last_created_by(triples: Seq<TripleView>, subject: ObjectIdView) -> Option<
    Seq<char>,
>
    decreases triples.len(),
{
    if triples.len() == 0 {
        Option::None
    } else if triples.last().subject == subject && triples.last().predicate == Relation::CreatedBy
        && triples.last().object is User {
        match triples.last().object {
            ObjectIdView::User(uid) => Option::Some(uid),
            _ => Option::None,
        }
    } else {
        last_created_by(triples.drop_last(), subject)
    }
}

fn last_created_by_exec(triples: &Vec<Triple>, subject: &ObjectId) -> (r: Option<String>)
    ensures
        r.deep_view() == last_created_by(triples.deep_view(), subject@),
{
    let ghost s = triples.deep_view();
    let mut found: Option<String> = None;
    let mut i: usize = 0;
    while i < triples.len()
        invariant
            i <= triples.len(),
            s == triples.deep_view(),
            s.len() == triples@.len(),
            found.deep_view() == last_created_by(s.take(i as int), subject@),
        decreases triples.len() - i,
    {
        proof {
            assert(s.take(i as int + 1).drop_last() =~= s.take(i as int));
            assert(s.take(i as int + 1).last() == s[i as int]);
            assert(s[i as int] == triples@[i as int]@);
        }
        let t = &triples[i];
        let subject_matches = match (&t.subject, subject) {
            (ObjectId::Entry(a), ObjectId::Entry(b)) => str_eq(a.as_str(), b.as_str()),
            (ObjectId::Tag(a), ObjectId::Tag(b)) => str_eq(a.as_str(), b.as_str()),
            (ObjectId::User(a), ObjectId::User(b)) => str_eq(a.as_str(), b.as_str()),
            (ObjectId::Comment(a), ObjectId::Comment(b)) => str_eq(a.as_str(), b.as_str()),
            (ObjectId::Rating(a), ObjectId::Rating(b)) => str_eq(a.as_str(), b.as_str()),
            (ObjectId::BboxSubscription(a), ObjectId::BboxSubscription(b)) => str_eq(
                a.as_str(),
                b.as_str(),
            ),
            _ => false,
        };
        if subject_matches {
            match (&t.predicate, &t.object) {
                (Relation::CreatedBy, ObjectId::User(uid)) => {
                    found = Some(uid.clone());
                },
                _ => {},
            }
        }
        i = i + 1;
    }
    proof {
        assert(s.take(triples@.len() as int) =~= s);
    }
    found
}

/// The creator of a comment: the user named by the last matching
/// `CreatedBy` triple.
pub fn get_user_id_for_comment_id(triples: &Vec<Triple>, comment_id: &str) -> (r: Option<String>)
    ensures
        r.deep_view() == last_created_by(
            triples.deep_view(),
            ObjectIdView::Comment(comment_id@),
        ),
{
    let subject = ObjectId::Comment(comment_id.to_owned());
    last_created_by_exec(triples, &subject)
}

/// The creator of a rating: the user named by the last matching
/// `CreatedBy` triple.
pub fn get_user_id_for_rating_id(triples: &Vec<Triple>, rating_id: &str) -> (r: Option<String>)
    ensures
        r.deep_view() == last_created_by(triples.deep_view(), ObjectIdView::Rating(rating_id@)),
{
    let subject = ObjectId::Rating(rating_id.to_owned());
    last_created_by_exec(triples, &subject)
}

/// The ratings whose id occurs among `ids`, in store order.
pub open spec fn ratings_with_ids(rs: Seq<RatingView>, ids: Seq<Seq<char>>) -> Seq<RatingView>
    decreases rs.len(),
{
    if rs.len() == 0 {
        Seq::empty()
    } else {
        let init = ratings_with_ids(rs.drop_last(), ids);
        if ids.contains(rs.last().id) {
            init.push(rs.last())
        } else {
            init
        }
    }
}

/// The ratings with the given ids, read from the repository.
pub fn get_ratings<D: Db>(db: &D, ids: &Vec<String>) -> (r: Result<Vec<Rating>, Error>)
    ensures
        match r {
            Ok(v) => v.deep_view() == ratings_with_ids(db.state().ratings, ids.deep_view()),
            Err(e) => e is Repo,
        },
{
    let all = match db.all_ratings() {
        Ok(all) => all,
        Err(e) => {
            return Err(Error::Repo(e));
        },
    };
    let ghost s = db.state().ratings;
    let mut out: Vec<Rating> = Vec::new();
    let mut i: usize = 0;
    while i < all.len()
        invariant
            i <= all.len(),
            all.deep_view() == s,
            s.len() == all@.len(),
            out.deep_view() =~= ratings_with_ids(s.take(i as int), ids.deep_view()),
        decreases all.len() - i,
    {
        proof {
            assert(s.take(i as int + 1).drop_last() =~= s.take(i as int));
            assert(s.take(i as int + 1).last() == s[i as int]);
            assert(s[i as int] == all@[i as int]@);
        }
        if contains_string(ids, &all[i].id) {
            out.push(all[i].clone());
        }
        proof {
            assert(out.deep_view() =~= ratings_with_ids(s.take(i as int + 1), ids.deep_view()));
        }
        i = i + 1;
    }
    proof {
        assert(s.take(all@.len() as int) =~= s);
    }
    Ok(out)
}

/// The entries whose id occurs among `ids`, in store order.
pub open spec fn entries_with_ids(es: Seq<EntryView>, ids: Seq<Seq<char>>) -> Seq<EntryView>
    decreases es.len(),
{
    if es.len() == 0 {
        Seq::empty()
    } else {
        let init = entries_with_ids(es.drop_last(), ids);
        if ids.contains(es.last().id) {
            init.push(es.last())
        } else {
            init
        }
    }
}

/// The entries with the given ids, read from the repository.
pub fn get_entries<D: Db>(db: &D, ids: &Vec<String>) -> (r: Result<Vec<Entry>, Error>)
    ensures
        match r {
            Ok(v) => v.deep_view() == entries_with_ids(db.state().entries, ids.deep_view()),
            Err(e) => e is Repo,
        },
{
    let all = match db.all_entries() {
        Ok(all) => all,
        Err(e) => {
            return Err(Error::Repo(e));
        },
    };
    let ghost s = db.state().entries;
    let mut out: Vec<Entry> = Vec::new();
    let mut i: usize = 0;
    while i < all.len()
        invariant
            i <= all.len(),
            all.deep_view() == s,
            s.len() == all@.len(),
            out.deep_view() =~= entries_with_ids(s.take(i as int), ids.deep_view()),
        decreases all.len() - i,
    {
        proof {
            assert(s.take(i as int + 1).drop_last() =~= s.take(i as int));
            assert(s.take(i as int + 1).last() == s[i as int]);
            assert(s[i as int] == all@[i as int]@);
        }
        if contains_string(ids, &all[i].id) {
            out.push(all[i].clone());
        }
        proof {
            assert(out.deep_view() =~= entries_with_ids(s.take(i as int + 1), ids.deep_view()));
        }
        i = i + 1;
    }
    proof {
        assert(s.take(all@.len() as int) =~= s);
    }
    Ok(out)
}

/// The ratings denormalized onto one entry id, in store order.
pub open spec fn ratings_for_entry(rs: Seq<RatingView>, entry_id: Seq<char>) -> Seq<RatingView>
    decreases rs.len(),
{
    if rs.len() == 0 {
        Seq::empty()
    } else {
        let init = ratings_for_entry(rs.drop_last(), entry_id);
        if rs.last().entry_id == entry_id {
            init.push(rs.last())
        } else {
            init
        }
    }
}

fn ratings_for_entry_exec(all: &Vec<Rating>, entry_id: &String) -> (out: Vec<Rating>)
    ensures
        out.deep_view() == ratings_for_entry(all.deep_view(), entry_id@),
{
    let ghost s = all.deep_view();
    let mut out: Vec<Rating> = Vec::new();
    let mut i: usize = 0;
    while i < all.len()
        invariant
            i <= all.len(),
            s == all.deep_view(),
            s.len() == all@.len(),
            out.deep_view() =~= ratings_for_entry(s.take(i as int), entry_id@),
        decreases all.len() - i,
    {
        proof {
            assert(s.take(i as int + 1).drop_last() =~= s.take(i as int));
            assert(s.take(i as int + 1).last() == s[i as int]);
            assert(s[i as int] == all@[i as int]@);
        }
        if str_eq(all[i].entry_id.as_str(), entry_id.as_str()) {
            out.push(all[i].clone());
        }
        proof {
            assert(out.deep_view() =~= ratings_for_entry(s.take(i as int + 1), entry_id@));
        }
        i = i + 1;
    }
    proof {
        assert(s.take(all@.len() as int) =~= s);
    }
    out
}

/// For each given entry id, the ratings denormalized onto it, keyed in
/// the order the ids were given.
pub fn get_ratings_by_entry_ids<D: Db>(db: &D, ids: &Vec<String>) -> (r: Result<
    Vec<(String, Vec<Rating>)>,
    Error,
>)
    ensures
        match r {
            Ok(v) => {
                &&& v@.len() == ids@.len()
                &&& forall|i: int|
                    0 <= i < v@.len() ==> (#[trigger] v@[i]).0@ == ids.deep_view()[i]
                        && v@[i].1.deep_view() == ratings_for_entry(
                        db.state().ratings,
                        ids.deep_view()[i],
                    )
            },
            Err(e) => e is Repo,
        },
{
    let all = match db.all_ratings() {
        Ok(all) => all,
        Err(e) => {
            return Err(Error::Repo(e));
        },
    };
    let mut out: Vec<(String, Vec<Rating>)> = Vec::new();
    let mut i: usize = 0;
    while i < ids.len()
        invariant
            i <= ids.len(),
            all.deep_view() == db.state().ratings,
            out@.len() == i as int,
            forall|k: int|
                0 <= k < i as int ==> (#[trigger] out@[k]).0@ == ids.deep_view()[k]
                    && out@[k].1.deep_view() == ratings_for_entry(
                    db.state().ratings,
                    ids.deep_view()[k],
                ),
        decreases ids.len() - i,
    {
        let key = ids[i].clone();
        let matched = ratings_for_entry_exec(&all, &key);
        proof {
            assert(ids.deep_view()[i as int] == ids@[i as int]@);
        }
        out.push((key, matched));
        i = i + 1;
    }
    Ok(out)
}

/// The first comment carrying the id, if any.
pub open spec fn first_comment_with_id(cs: Seq<CommentView>, id: Seq<char>) -> Option<CommentView>
    decreases cs.len(),
{
    if cs.len() == 0 {
        Option::None
    } else if cs.first().id == id {
        Option::Some(cs.first())
    } else {
        first_comment_with_id(cs.drop_first(), id)
    }
}

/// For each comment id, the first comment carrying it; absent ids are
/// skipped.
pub open spec fn comments_for_ids(cs: Seq<CommentView>, ids: Seq<Seq<char>>) -> Seq<CommentView>
    decreases ids.len(),
{
    if ids.len() == 0 {
        Seq::empty()
    } else {
        let init = comments_for_ids(cs, ids.drop_last());
        match first_comment_with_id(cs, ids.last()) {
            Option::Some(c) => init.push(c),
            Option::None => init,
        }
    }
}

fn first_comment_with_id_exec(cs: &Vec<Comment>, id: &String) -> (r: Option<Comment>)
    ensures
        r.deep_view() == first_comment_with_id(cs.deep_view(), id@),
{
    let ghost s = cs.deep_view();
    proof {
        assert(s.skip(0) =~= s);
    }
    let mut i: usize = 0;
    while i < cs.len()
        invariant
            i <= cs.len(),
            s == cs.deep_view(),
            s.len() == cs@.len(),
            first_comment_with_id(s, id@) == first_comment_with_id(s.skip(i as int), id@),
        decreases cs.len() - i,
    {
        proof {
            assert(s.skip(i as int).first() == s[i as int]);
            assert(s[i as int] == cs@[i as int]@);
            assert(s.skip(i as int).drop_first() =~= s.skip(i as int + 1));
        }
        if str_eq(cs[i].id.as_str(), id.as_str()) {
            return Some(cs[i].clone());
        }
        i = i + 1;
    }
    proof {
        assert(s.skip(cs@.len() as int) =~= Seq::<CommentView>::empty());
    }
    None
}

/// For each given rating id, the comments attached to it through
/// `IsCommentedWith` triples, keyed in the order the ids were given.
pub fn get_comments_by_rating_ids<D: Db>(db: &D, ids: &Vec<String>) -> (r: Result<
    Vec<(String, Vec<Comment>)>,
    Error,
>)
    ensures
        match r {
            Ok(v) => {
                &&& v@.len() == ids@.len()
                &&& forall|i: int|
                    0 <= i < v@.len() ==> (#[trigger] v@[i]).0@ == ids.deep_view()[i]
                        && v@[i].1.deep_view() == comments_for_ids(
                        db.state().comments,
                        comment_ids_for_rating(db.state().triples, ids.deep_view()[i]),
                    )
            },
            Err(e) => e is Repo,
        },
{
    let triples = match db.all_triples() {
        Ok(ts) => ts,
        Err(e) => {
            return Err(Error::Repo(e));
        },
    };
    let comments = match db.all_comments() {
        Ok(cs) => cs,
        Err(e) => {
            return Err(Error::Repo(e));
        },
    };
    let mut out: Vec<(String, Vec<Comment>)> = Vec::new();
    let mut i: usize = 0;
    while i < ids.len()
        invariant
            i <= ids.len(),
            triples.deep_view() == db.state().triples,
            comments.deep_view() == db.state().comments,
            out@.len() == i as int,
            forall|k: int|
                0 <= k < i as int ==> (#[trigger] out@[k]).0@ == ids.deep_view()[k]
                    && out@[k].1.deep_view() == comments_for_ids(
                    db.state().comments,
                    comment_ids_for_rating(db.state().triples, ids.deep_view()[k]),
                ),
        decreases ids.len() - i,
    {
        let key = ids[i].clone();
        let c_ids = get_comment_ids_for_rating_id(&triples, key.as_str());
        let ghost cid_seq = c_ids.deep_view();
        let mut matched: Vec<Comment> = Vec::new();
        let mut j: usize = 0;
        while j < c_ids.len()
            invariant
                j <= c_ids.len(),
                cid_seq == c_ids.deep_view(),
                cid_seq.len() == c_ids@.len(),
                comments.deep_view() == db.state().comments,
                matched.deep_view() =~= comments_for_ids(
                    db.state().comments,
                    cid_seq.take(j as int),
                ),
            decreases c_ids.len() - j,
        {
            proof {
                assert(cid_seq.take(j as int + 1).drop_last() =~= cid_seq.take(j as int));
                assert(cid_seq.take(j as int + 1).last() == cid_seq[j as int]);
                assert(cid_seq[j as int] == c_ids@[j as int]@);
            }
            match first_comment_with_id_exec(&comments, &c_ids[j]) {
                Some(c) => {
                    matched.push(c);
                },
                None => {},
            }
            proof {
                assert(matched.deep_view() =~= comments_for_ids(
                    db.state().comments,
                    cid_seq.take(j as int + 1),
                ));
            }
            j = j + 1;
        }
        proof {
            assert(cid_seq.take(c_ids@.len() as int) =~= cid_seq);
            assert(ids.deep_view()[i as int] == ids@[i as int]@);
        }
        out.push((key, matched));
        i = i + 1;
    }
    Ok(out)
}

/// A fresh identifier.
///
/// Relies on `uuid::Uuid::new_v4` and its simple formatting: a random
/// version-4 identifier written as 32 hexadecimal characters. The value
/// depends on randomness, so nothing but its length is promised.
#[verifier::external_body]
fn new_id() -> (r: String)
    ensures
        r@.len() == 32,
{
    uuid::Uuid::new_v4().simple().to_string()
}

/// The current time as a unix timestamp (wrapped into an unsigned value
/// as the records store it).
///
/// Relies on `chrono::Utc::now`: what the clock reads; nothing is
/// promised of it.
#[verifier::external_body]
fn now_timestamp() -> u64 {
    chrono::Utc::now().timestamp() as u64
}

/// The check bcrypt performs when it verifies a password against a hash
/// string; a function of the two strings alone.
pub uninterp spec fn bcrypt_verified(password: Seq<char>, hash: Seq<char>) -> bool;

/// A bcrypt hash of the password under a fresh random salt.
///
/// Relies on `pwhash::bcrypt::hash`: the result depends on the salt, so
/// nothing is promised of its text; verification re-derives the hash from
/// the password and the salt carried in the hash string, so a hash that
/// comes back verifies against its password. The library's `Result` is
/// passed through unchanged; the vendored version aborts rather than
/// returns an error when its randomness source fails, so the error arm
/// is defensive.
#[verifier::external_body]
fn password_hash(password: &str) -> (r: Result<String, ()>)
    ensures
        r matches Ok(h) ==> bcrypt_verified(password@, h@),
{
    match pwhash::bcrypt::hash(password) {
        Ok(h) => Ok(h),
        Err(_) => Err(()),
    }
}

/// Whether the password matches the hash string.
///
/// Relies on `pwhash::bcrypt::verify`: a deterministic function of the
/// password and the hash string.
#[verifier::external_body]
fn password_verify(password: &str, hash: &str) -> (r: bool)
    ensures
        r == bcrypt_verified(password@, hash@),
{
    pwhash::bcrypt::verify(password, hash)
}

/// Registers a new user: validates the fields, rejects a taken username,
/// hashes the password, and persists the user with a fresh id and an
/// unconfirmed email address.
pub fn create_new_user<D: Db>(db: &mut D, u: NewUser) -> (r: Result<(), Error>)
    ensures
        (r == Result::<(), Error>::Err(Error::Parameter(ParameterError::UserName))) <==> !crate::validate::valid_username(
            u.username@,
        ),
        (r == Result::<(), Error>::Err(Error::Parameter(ParameterError::Password))) <==> (
        crate::validate::valid_username(u.username@) && !crate::validate::valid_password(
            u.password@,
        )),
        (r == Result::<(), Error>::Err(Error::Parameter(ParameterError::Email))) <==> (crate::validate::valid_username(
            u.username@,
        ) && crate::validate::valid_password(u.password@) && !crate::validate::valid_email(
            u.email@,
        )),
        r == Result::<(), Error>::Err(Error::Parameter(ParameterError::UserExists)) ==> has_user_with_name(
            old(db).state().users,
            u.username@,
        ),
        r is Ok ==> exists|nu: UserView|
            {
                &&& final(db).state() == (DbViews {
                    users: old(db).state().users.push(nu),
                    ..old(db).state()
                })
                &&& nu.username == u.username@
                &&& nu.email == u.email@
                &&& !nu.email_confirmed
                &&& bcrypt_verified(u.password@, nu.password)
            },
        r is Err ==> final(db).state() == old(db).state(),
{
    if let Err(e) = crate::validate::username(u.username.as_str()) {
        return Err(Error::Parameter(e));
    }
    if let Err(e) = crate::validate::password(u.password.as_str()) {
        return Err(Error::Parameter(e));
    }
    if let Err(e) = crate::validate::email(u.email.as_str()) {
        return Err(Error::Parameter(e));
    }
    match db.get_user(&u.username.as_str()) {
        Ok(_) => {
            return Err(Error::Parameter(ParameterError::UserExists));
        },
        Err(_) => {},
    }
    let ghost uname = u.username@;
    let ghost upass = u.password@;
    let ghost uemail = u.email@;
    let pw = match password_hash(u.password.as_str()) {
        Ok(pw) => pw,
        Err(()) => {
            return Err(Error::Pwhash);
        },
    };
    let id = new_id();
    let user = User {
        id,
        username: u.username,
        password: pw,
        email: u.email,
        email_confirmed: false,
    };
    match db.create_user(&user) {
        Ok(()) => {
            proof {
                let nu = user@;
                assert(nu.username == uname && nu.email == uemail && !nu.email_confirmed);
                assert(bcrypt_verified(upass, nu.password));
                assert(db.state() == (DbViews {
                    users: old(db).state().users.push(nu),
                    ..old(db).state()
                }));
            }
            Ok(())
        },
        Err(e) => Err(Error::Repo(e)),
    }
}

/// The optimistic-concurrency test: whether a submitted version fails to
/// be exactly one above the stored version. Total for every stored
/// version, including the largest one (which no submitted version can
/// follow).
pub fn version_conflict(stored: u64, submitted: u64) -> (r: bool)
    ensures
        r == (stored as int + 1 != submitted as int),
{
    !(submitted > 0 && stored == submitted - 1)
}

/// The first user carrying the id, if any.
pub open spec fn first_user_with_id(users: Seq<UserView>, id: Seq<char>) -> Option<UserView>
    decreases users.len(),
{
    if users.len() == 0 {
        Option::None
    } else if users.first().id == id {
        Option::Some(users.first())
    } else {
        first_user_with_id(users.drop_first(), id)
    }
}

/// Looks a user up on behalf of the logged-in user `login_id`: only one's
/// own record may be read. Returns the id and email address of the user
/// named `username`.
pub fn get_user<D: Db>(db: &mut D, login_id: &str, username: &str) -> (r: Result<
    (String, String),
    Error,
>)
    ensures
        final(db).state() == old(db).state(),
        r matches Ok(p) ==> {
            &&& first_user_with_id(old(db).state().users, login_id@) matches Some(pu)
                && pu.username == username@
            &&& exists|u2: UserView|
                old(db).state().users.contains(u2) && u2.username == username@ && p.0@ == u2.id
                    && p.1@ == u2.email
        },
        (r == Result::<(String, String), Error>::Err(Error::Parameter(ParameterError::Forbidden))) ==> (first_user_with_id(
            old(db).state().users,
            login_id@,
        ) matches Some(pu) && pu.username != username@),
        r == Result::<(String, String), Error>::Err(Error::Repo(RepoError::NotFound)) ==> first_user_with_id(
            old(db).state().users,
            login_id@,
        ) is None,
        r matches Err(e) ==> e is Repo || e == Error::Parameter(ParameterError::Forbidden),
{
    let users = match db.all_users() {
        Ok(us) => us,
        Err(e) => {
            return Err(Error::Repo(e));
        },
    };
    let ghost s = db.state().users;
    proof {
        assert(s.skip(0) =~= s);
    }
    let mut i: usize = 0;
    while i < users.len()
        invariant
            i <= users.len(),
            s == users.deep_view(),
            s == db.state().users,
            s.len() == users@.len(),
            first_user_with_id(s, login_id@) == first_user_with_id(s.skip(i as int), login_id@),
        decreases users.len() - i,
    {
        proof {
            assert(s.skip(i as int).first() == s[i as int]);
            assert(s[i as int] == users@[i as int]@);
            assert(s.skip(i as int).drop_first() =~= s.skip(i as int + 1));
        }
        if str_eq(users[i].id.as_str(), login_id) {
            proof {
                assert(first_user_with_id(s, login_id@) == Option::Some(s[i as int]));
            }
            if !str_eq(users[i].username.as_str(), username) {
                return Err(Error::Parameter(ParameterError::Forbidden));
            }
            proof {
                assert(s[i as int].username == username@);
                assert(has_user_with_name(db.state().users, username@));
            }
            let u = match db.get_user(username) {
                Ok(u) => u,
                Err(e) => {
                    proof {
                        assert(e != RepoError::NotFound);
                    }
                    return Err(Error::Repo(e));
                },
            };
            return Ok((u.id, u.email));
        }
        i = i + 1;
    }
    proof {
        assert(s.skip(users@.len() as int) =~= Seq::<UserView>::empty());
    }
    Err(Error::Repo(RepoError::NotFound))
}

/// Deletes a user's own account; acting on another user's account is
/// forbidden.
pub fn delete_user<D: Db>(db: &mut D, login_id: &str, u_id: &str) -> (r: Result<(), Error>)
    ensures
        (r == Result::<(), Error>::Err(Error::Parameter(ParameterError::Forbidden))) <==> login_id@ != u_id@,
        r is Ok ==> final(db).state() == (DbViews {
            users: crate::db::users_without_id(old(db).state().users, login_id@),
            ..old(db).state()
        }),
        r is Err ==> final(db).state() == old(db).state(),
        r matches Err(e) ==> e is Repo || e == Error::Parameter(ParameterError::Forbidden),
{
    if !str_eq(login_id, u_id) {
        return Err(Error::Parameter(ParameterError::Forbidden));
    }
    match db.delete_user(login_id) {
        Ok(()) => Ok(()),
        Err(e) => Err(Error::Repo(e)),
    }
}

/// Logs a user in: the credentials must name a stored user whose password
/// hash the supplied password verifies against, and the user's email
/// address must be confirmed. Returns the user's id.
pub fn login<D: Db>(db: &mut D, credentials: Login) -> (r: Result<String, Error>)
    ensures
        final(db).state() == old(db).state(),
        r matches Ok(id) ==> exists|u: UserView|
            {
                &&& old(db).state().users.contains(u)
                &&& u.username == credentials.username@
                &&& bcrypt_verified(credentials.password@, u.password)
                &&& u.email_confirmed
                &&& id@ == u.id
            },
        r == Result::<String, Error>::Err(Error::Parameter(ParameterError::EmailNotConfirmed)) ==> exists|u: UserView|
            {
                &&& old(db).state().users.contains(u)
                &&& u.username == credentials.username@
                &&& bcrypt_verified(credentials.password@, u.password)
                &&& !u.email_confirmed
            },
        r == Result::<String, Error>::Err(Error::Parameter(ParameterError::Credentials)) ==> (!has_user_with_name(
            old(db).state().users,
            credentials.username@,
        ) || exists|u: UserView|
            {
                &&& old(db).state().users.contains(u)
                &&& u.username == credentials.username@
                &&& !bcrypt_verified(credentials.password@, u.password)
            }),
        r matches Err(e) ==> e is Repo || e == Error::Parameter(ParameterError::Credentials) || e
            == Error::Parameter(ParameterError::EmailNotConfirmed),
{
    match db.get_user(credentials.username.as_str()) {
        Ok(u) => {
            if password_verify(credentials.password.as_str(), u.password.as_str()) {
                if u.email_confirmed {
                    Ok(u.id)
                } else {
                    Err(Error::Parameter(ParameterError::EmailNotConfirmed))
                }
            } else {
                Err(Error::Parameter(ParameterError::Credentials))
            }
        },
        Err(err) => {
            match err {
                RepoError::NotFound => Err(Error::Parameter(ParameterError::Credentials)),
                _ => Err(Error::Repo(RepoError::Other)),
            }
        },
    }
}

/// The tag list extended by each of `new` in turn, skipping those
/// already present.
pub open spec fn tags_upserted(tags: Seq<Seq<char>>, new: Seq<Seq<char>>) -> Seq<Seq<char>>
    decreases new.len(),
{
    if new.len() == 0 {
        tags
    } else {
        let base = tags_upserted(tags, new.drop_last());
        if base.contains(new.last()) {
            base
        } else {
            base.push(new.last())
        }
    }
}

/// Creates each tag that does not exist yet.
fn upsert_tags<D: Db>(db: &mut D, tags: &Vec<String>) -> (r: Result<(), RepoError>)
    ensures
        r is Ok ==> final(db).state() == (DbViews {
            tags: tags_upserted(old(db).state().tags, tags.deep_view()),
            ..old(db).state()
        }),
        r is Err ==> exists|k: int|
            0 <= k <= tags.deep_view().len() && final(db).state() == (DbViews {
                tags: tags_upserted(old(db).state().tags, #[trigger] tags.deep_view().take(k)),
                ..old(db).state()
            }),
        r matches Err(err) ==> err == RepoError::Other,
{
    let ghost new = tags.deep_view();
    proof {
        assert(new.take(0) =~= Seq::<Seq<char>>::empty());
    }
    let mut i: usize = 0;
    while i < tags.len()
        invariant
            i <= tags.len(),
            new == tags.deep_view(),
            new.len() == tags@.len(),
            db.state() == (DbViews {
                tags: tags_upserted(old(db).state().tags, new.take(i as int)),
                ..old(db).state()
            }),
        decreases tags.len() - i,
    {
        proof {
            assert(new.take(i as int + 1).drop_last() =~= new.take(i as int));
            assert(new.take(i as int + 1).last() == new[i as int]);
            assert(new[i as int] == tags@[i as int]@);
        }
        let tag = crate::entities::Tag { id: tags[i].clone() };
        match db.create_tag_if_it_does_not_exist(&tag) {
            Ok(()) => {},
            Err(e) => {
                return Err(e);
            },
        }
        proof {
            assert(db.state() =~= (DbViews {
                tags: tags_upserted(old(db).state().tags, new.take(i as int + 1)),
                ..old(db).state()
            }));
        }
        i = i + 1;
    }
    proof {
        assert(new.take(tags@.len() as int) =~= new);
    }
    Ok(())
}

/// Creates a new entry: validates its fields, gives it a fresh id,
/// version zero and the license the caller chose, creates any of its tags
/// that are missing, and persists it. Returns the new id.
pub fn create_new_entry<D: Db>(db: &mut D, e: NewEntry) -> (r: Result<String, Error>)
    ensures
        (r == Result::<String, Error>::Err(Error::Parameter(ParameterError::License)))
            <==> !crate::validate::valid_license(Some(e.license@)),
        (r == Result::<String, Error>::Err(Error::Parameter(ParameterError::Email))) <==> (
        crate::validate::valid_license(Some(e.license@)) && (e.email matches Some(s)
            && !crate::validate::valid_email(s@))),
        r matches Err(err) && err is Parameter ==> final(db).state() == old(db).state(),
        r matches Ok(id) ==> exists|ne: EntryView|
            {
                &&& final(db).state() == (DbViews {
                    entries: old(db).state().entries.push(ne),
                    tags: tags_upserted(old(db).state().tags, e.tags.deep_view()),
                    ..old(db).state()
                })
                &&& ne.id == id@
                &&& ne.version == 0
                &&& ne.osm_node is None
                &&& ne.title == e.title@
                &&& ne.description == e.description@
                &&& ne.lat == e.lat
                &&& ne.lng == e.lng
                &&& ne.street == e.street.deep_view()
                &&& ne.zip == e.zip.deep_view()
                &&& ne.city == e.city.deep_view()
                &&& ne.country == e.country.deep_view()
                &&& ne.email == e.email.deep_view()
                &&& ne.telephone == e.telephone.deep_view()
                &&& ne.homepage == e.homepage.deep_view()
                &&& ne.categories == e.categories.deep_view()
                &&& ne.tags == e.tags.deep_view()
                &&& ne.license == Some(e.license@)
            },
        r matches Err(err) && err is Repo ==> exists|k: int|
            0 <= k <= e.tags.deep_view().len() && final(db).state() == (DbViews {
                tags: tags_upserted(old(db).state().tags, #[trigger] e.tags.deep_view().take(k)),
                ..old(db).state()
            }),
        r matches Err(err) ==> err is Parameter || err is Repo,
{
    if !(str_eq(e.license.as_str(), "CC0-1.0") || str_eq(e.license.as_str(), "ODbL-1.0")) {
        return Err(Error::Parameter(ParameterError::License));
    }
    match &e.email {
        Some(address) => {
            if let Err(err) = crate::validate::email(address.as_str()) {
                return Err(Error::Parameter(err));
            }
        },
        None => {},
    }
    let id = new_id();
    let created = now_timestamp();
    let new_entry = Entry {
        id: id.clone(),
        osm_node: None,
        created,
        version: 0,
        title: e.title,
        description: e.description,
        lat: e.lat,
        lng: e.lng,
        street: e.street,
        zip: e.zip,
        city: e.city,
        country: e.country,
        email: e.email,
        telephone: e.telephone,
        homepage: e.homepage,
        categories: e.categories,
        tags: e.tags,
        license: Some(e.license),
    };
    if let Err(err) = upsert_tags(db, &new_entry.tags) {
        return Err(Error::Repo(err));
    }
    match db.create_entry(&new_entry) {
        Ok(()) => {
            proof {
                let ne = new_entry@;
                assert(db.state() == (DbViews {
                    entries: old(db).state().entries.push(ne),
                    tags: tags_upserted(old(db).state().tags, ne.tags),
                    ..old(db).state()
                }));
            }
            Ok(id)
        },
        Err(err) => {
            proof {
                assert(new_entry@.tags.take(new_entry@.tags.len() as int) =~= new_entry@.tags);
                assert(db.state() == (DbViews {
                    tags: tags_upserted(
                        old(db).state().tags,
                        new_entry@.tags.take(new_entry@.tags.len() as int),
                    ),
                    ..old(db).state()
                }));
            }
            Err(Error::Repo(err))
        },
    }
}

/// Replaces an entry under optimistic concurrency: the submitted version
/// must be exactly one above the stored one, else the update is rejected
/// with a version conflict; the immutable license is carried forward from
/// the stored record.
pub fn update_entry<D: Db>(db: &mut D, e: UpdateEntry) -> (r: Result<(), Error>)
    ensures
        r is Ok ==> exists|stored: EntryView, ne: EntryView|
            {
                &&& old(db).state().entries.contains(stored)
                &&& stored.id == e.id@
                &&& stored.version + 1 == e.version
                &&& final(db).state() == (DbViews {
                    entries: crate::db::entries_replaced(old(db).state().entries, ne),
                    tags: tags_upserted(old(db).state().tags, e.tags.deep_view()),
                    ..old(db).state()
                })
                &&& ne.id == e.id@
                &&& ne.version == e.version
                &&& ne.osm_node is None
                &&& ne.title == e.title@
                &&& ne.description == e.description@
                &&& ne.lat == e.lat
                &&& ne.lng == e.lng
                &&& ne.street == e.street.deep_view()
                &&& ne.zip == e.zip.deep_view()
                &&& ne.city == e.city.deep_view()
                &&& ne.country == e.country.deep_view()
                &&& ne.email == e.email.deep_view()
                &&& ne.telephone == e.telephone.deep_view()
                &&& ne.homepage == e.homepage.deep_view()
                &&& ne.categories == e.categories.deep_view()
                &&& ne.tags == e.tags.deep_view()
                &&& ne.license == stored.license
            },
        r == Result::<(), Error>::Err(Error::Repo(RepoError::InvalidVersion)) ==> exists|
            stored: EntryView,
        |
            {
                &&& old(db).state().entries.contains(stored)
                &&& stored.id == e.id@
                &&& stored.version + 1 != e.version
                &&& final(db).state() == old(db).state()
            },
        r == Result::<(), Error>::Err(Error::Repo(RepoError::NotFound)) ==> !has_entry_with_id(
            old(db).state().entries,
            e.id@,
        ),
        r is Err ==> exists|k: int|
            0 <= k <= e.tags.deep_view().len() && final(db).state() == (DbViews {
                tags: tags_upserted(old(db).state().tags, #[trigger] e.tags.deep_view().take(k)),
                ..old(db).state()
            }),
        r matches Err(err) ==> err is Repo,
{
    proof {
        assert(e.tags.deep_view().take(0) =~= Seq::<Seq<char>>::empty());
    }
    let stored = match db.get_entry(e.id.as_str()) {
        Ok(se) => se,
        Err(err) => {
            return Err(Error::Repo(err));
        },
    };
    if version_conflict(stored.version, e.version) {
        return Err(Error::Repo(RepoError::InvalidVersion));
    }
    let created = now_timestamp();
    let new_entry = Entry {
        id: e.id,
        osm_node: None,
        created,
        version: e.version,
        title: e.title,
        description: e.description,
        lat: e.lat,
        lng: e.lng,
        street: e.street,
        zip: e.zip,
        city: e.city,
        country: e.country,
        email: e.email,
        telephone: e.telephone,
        homepage: e.homepage,
        categories: e.categories,
        tags: e.tags,
        license: stored.license,
    };
    let ghost stored_view = stored@;
    if let Err(err) = upsert_tags(db, &new_entry.tags) {
        return Err(Error::Repo(err));
    }
    match db.update_entry(&new_entry) {
        Ok(()) => {
            proof {
                let ne = new_entry@;
                assert(db.state() == (DbViews {
                    entries: crate::db::entries_replaced(old(db).state().entries, ne),
                    tags: tags_upserted(old(db).state().tags, ne.tags),
                    ..old(db).state()
                }));
            }
            Ok(())
        },
        Err(err) => {
            proof {
                assert(new_entry@.tags.take(new_entry@.tags.len() as int) =~= new_entry@.tags);
                assert(db.state() == (DbViews {
                    tags: tags_upserted(
                        old(db).state().tags,
                        new_entry@.tags.take(new_entry@.tags.len() as int),
                    ),
                    ..old(db).state()
                }));
            }
            Err(Error::Repo(err))
        },
    }
}

/// Rates an entry: the entry must exist, the comment text must not be
/// empty, and the value must lie in `[-1, 2]`. Creates the rating, its
/// comment, and the triple linking them.
pub fn rate_entry<D: Db>(db: &mut D, rate: RateEntry) -> (r: Result<(), Error>)
    ensures
        r == Result::<(), Error>::Err(Error::Parameter(ParameterError::EmptyComment)) ==> {
            &&& rate.comment@.len() == 0
            &&& has_entry_with_id(old(db).state().entries, rate.entry@)
            &&& final(db).state() == old(db).state()
        },
        r == Result::<(), Error>::Err(Error::Parameter(ParameterError::RatingValue)) ==> {
            &&& (rate.value > 2 || rate.value < -1)
            &&& rate.comment@.len() > 0
            &&& has_entry_with_id(old(db).state().entries, rate.entry@)
            &&& final(db).state() == old(db).state()
        },
        r == Result::<(), Error>::Err(Error::Repo(RepoError::NotFound)) ==> !has_entry_with_id(
            old(db).state().entries,
            rate.entry@,
        ) && final(db).state() == old(db).state(),
        r is Ok ==> {
            &&& rate.comment@.len() > 0
            &&& -1 <= rate.value <= 2
            &&& has_entry_with_id(old(db).state().entries, rate.entry@)
            &&& exists|rv: RatingView, cv: CommentView|
                {
                    &&& final(db).state() == (DbViews {
                        ratings: old(db).state().ratings.push(rv),
                        comments: old(db).state().comments.push(cv),
                        triples: old(db).state().triples.push(
                            TripleView {
                                subject: ObjectIdView::Rating(rv.id),
                                predicate: Relation::IsCommentedWith,
                                object: ObjectIdView::Comment(cv.id),
                            },
                        ),
                        ..old(db).state()
                    })
                    &&& rv.entry_id == rate.entry@
                    &&& rv.title == rate.title@
                    &&& rv.value == rate.value
                    &&& rv.context == rate.context
                    &&& rv.source == rate.source.deep_view()
                    &&& cv.text == rate.comment@
                    &&& rv.created == cv.created
                }
        },
        r is Err ==> final(db).state() == old(db).state() || (exists|rv: RatingView|
            rv.entry_id == rate.entry@ && final(db).state() == (DbViews {
                ratings: #[trigger] old(db).state().ratings.push(rv),
                ..old(db).state()
            })) || (exists|rv: RatingView, cv: CommentView|
            rv.entry_id == rate.entry@ && final(db).state() == (DbViews {
                ratings: #[trigger] old(db).state().ratings.push(rv),
                comments: #[trigger] old(db).state().comments.push(cv),
                ..old(db).state()
            })),
        r matches Err(err) ==> err is Parameter || err is Repo,
{
    let stored = match db.get_entry(rate.entry.as_str()) {
        Ok(se) => se,
        Err(err) => {
            proof {
                if err == RepoError::NotFound {
                    assert(!has_entry_with_id(old(db).state().entries, rate.entry@));
                }
            }
            return Err(Error::Repo(err));
        },
    };
    proof {
        assert(has_entry_with_id(db.state().entries, rate.entry@)) by {
            assert(db.state().entries.contains(stored@));
            let k = choose|k: int|
                0 <= k < db.state().entries.len() && db.state().entries[k] == stored@;
            assert(db.state().entries[k].id == rate.entry@);
        }
    }
    if rate.comment.unicode_len() < 1 {
        return Err(Error::Parameter(ParameterError::EmptyComment));
    }
    if rate.value > 2 || rate.value < -1 {
        return Err(Error::Parameter(ParameterError::RatingValue));
    }
    let ghost rentry = rate.entry@;
    let ghost rsource = rate.source.deep_view();
    let ghost rcomment = rate.comment@;
    let now = now_timestamp();
    let rating_id = new_id();
    let comment_id = new_id();
    let rating = Rating {
        id: rating_id.clone(),
        entry_id: stored.id,
        created: now,
        title: rate.title,
        value: rate.value,
        context: rate.context,
        source: rate.source,
    };
    if let Err(err) = db.create_rating(&rating) {
        return Err(Error::Repo(err));
    }
    let comment = Comment { id: comment_id.clone(), created: now, text: rate.comment };
    if let Err(err) = db.create_comment(&comment) {
        return Err(Error::Repo(err));
    }
    let triple = Triple {
        subject: ObjectId::Rating(rating_id),
        predicate: Relation::IsCommentedWith,
        object: ObjectId::Comment(comment_id),
    };
    match db.create_triple(&triple) {
        Ok(()) => {
            proof {
                let rv = rating@;
                let cv = comment@;
                let tv = TripleView {
                    subject: ObjectIdView::Rating(rv.id),
                    predicate: Relation::IsCommentedWith,
                    object: ObjectIdView::Comment(cv.id),
                };
                assert(triple@ == tv);
                assert(db.state() == (DbViews {
                    ratings: old(db).state().ratings.push(rv),
                    comments: old(db).state().comments.push(cv),
                    triples: old(db).state().triples.push(tv),
                    ..old(db).state()
                }));
                assert(rv.entry_id == rentry);
                assert(rv.source == rsource);
                assert(cv.text == rcomment);
                assert(rv.created == cv.created);
            }
            Ok(())
        },
        Err(err) => Err(Error::Repo(err)),
    }
}

/// The triple stating that `username` subscribed to the subscription
/// `sid`.
pub open spec fn sub_triple(username: Seq<char>, sid: Seq<char>) -> TripleView {
    TripleView {
        subject: ObjectIdView::User(username),
        predicate: Relation::SubscribedTo,
        object: ObjectIdView::BboxSubscription(sid),
    }
}

/// Whether a triple states a subscription of `username`.
pub open spec fn is_subscription_link(t: TripleView, username: Seq<char>) -> bool {
    &&& t.subject matches ObjectIdView::User(u) && u == username
    &&& t.predicate == Relation::SubscribedTo
    &&& t.object is BboxSubscription
}

/// The subscription id a subscription link points at.
pub open spec fn subscription_link_target(t: TripleView) -> Seq<char> {
    match t.object {
        ObjectIdView::BboxSubscription(sid) => sid,
        _ => Seq::empty(),
    }
}

/// The ids of the subscriptions of `username`, in triple order.
pub open spec fn user_subscription_ids(triples: Seq<TripleView>, username: Seq<char>) -> Seq<
    Seq<char>,
>
    decreases triples.len(),
{
    if triples.len() == 0 {
        Seq::empty()
    } else {
        let init = user_subscription_ids(triples.drop_last(), username);
        if is_subscription_link(triples.last(), username) {
            init.push(subscription_link_target(triples.last()))
        } else {
            init
        }
    }
}

fn user_subscription_ids_exec(triples: &Vec<Triple>, username: &str) -> (ids: Vec<String>)
    ensures
        ids.deep_view() == user_subscription_ids(triples.deep_view(), username@),
{
    let ghost s = triples.deep_view();
    let mut ids: Vec<String> = Vec::new();
    let mut i: usize = 0;
    while i < triples.len()
        invariant
            i <= triples.len(),
            s == triples.deep_view(),
            s.len() == triples@.len(),
            ids.deep_view() =~= user_subscription_ids(s.take(i as int), username@),
        decreases triples.len() - i,
    {
        proof {
            assert(s.take(i as int + 1).drop_last() =~= s.take(i as int));
            assert(s.take(i as int + 1).last() == s[i as int]);
            assert(s[i as int] == triples@[i as int]@);
        }
        let t = &triples[i];
        match (&t.subject, &t.predicate, &t.object) {
            (ObjectId::User(u), Relation::SubscribedTo, ObjectId::BboxSubscription(sid)) => {
                if str_eq(u.as_str(), username) {
                    ids.push(sid.clone());
                }
            },
            _ => {},
        }
        proof {
            assert(ids.deep_view() =~= user_subscription_ids(s.take(i as int + 1), username@));
        }
        i = i + 1;
    }
    proof {
        assert(s.take(triples@.len() as int) =~= s);
    }
    ids
}

/// The state once the subscription `id` and the triples pointing at it
/// have left.
pub open spec fn views_without_subscription(v: DbViews, id: Seq<char>) -> DbViews {
    DbViews {
        bbox_subscriptions: subscriptions_without_id(v.bbox_subscriptions, id),
        triples: triples_without_subscription(v.triples, id),
        ..v
    }
}

/// The state once the user's first prior subscription, if any, has left.
pub open spec fn after_unsubscribe_first(v: DbViews, username: Seq<char>) -> DbViews {
    let ids = user_subscription_ids(v.triples, username);
    if ids.len() > 0 {
        views_without_subscription(v, ids[0])
    } else {
        v
    }
}

/// The state with a new subscription record and its linking triple added.
pub open spec fn with_subscription(
    v: DbViews,
    username: Seq<char>,
    sub: BboxSubscriptionView,
) -> DbViews {
    DbViews {
        bbox_subscriptions: v.bbox_subscriptions.push(sub),
        triples: v.triples.push(sub_triple(username, sub.id)),
        ..v
    }
}

/// Whether a subscription record holds exactly the corners of `bbox`.
pub open spec fn sub_matches_bbox(sub: BboxSubscriptionView, bbox: crate::geo::Bbox) -> bool {
    &&& sub.south_west_lat == bbox.south_west.lat
    &&& sub.south_west_lng == bbox.south_west.lng
    &&& sub.north_east_lat == bbox.north_east.lat
    &&& sub.north_east_lng == bbox.north_east.lng
}

/// Replaces whatever subscription the user held by a new one for `bbox`:
/// a user holds at most one active subscription, enforced by
/// delete-then-create.
pub fn create_or_modify_subscription<D: Db>(
    bbox: &crate::geo::Bbox,
    username: String,
    db: &mut D,
) -> (r: Result<(), Error>)
    ensures
        r is Ok ==> exists|sub: BboxSubscriptionView|
            {
                &&& final(db).state() == with_subscription(
                    after_unsubscribe_first(old(db).state(), username@),
                    username@,
                    sub,
                )
                &&& sub_matches_bbox(sub, *bbox)
            },
        r is Err ==> final(db).state() == old(db).state() || final(db).state()
            == after_unsubscribe_first(old(db).state(), username@) || exists|
            sub: BboxSubscriptionView,
        |
            sub_matches_bbox(sub, *bbox) && final(db).state() == (DbViews {
                bbox_subscriptions: #[trigger] after_unsubscribe_first(
                    old(db).state(),
                    username@,
                ).bbox_subscriptions.push(sub),
                ..after_unsubscribe_first(old(db).state(), username@)
            }),
        r matches Err(e) ==> e is Repo,
{
    let triples = match db.all_triples() {
        Ok(ts) => ts,
        Err(e) => {
            return Err(Error::Repo(e));
        },
    };
    let ids = user_subscription_ids_exec(&triples, username.as_str());
    if ids.len() > 0 {
        proof {
            assert(ids.deep_view()[0] == ids@[0]@);
        }
        if let Err(e) = db.delete_bbox_subscription(ids[0].as_str()) {
            return Err(Error::Repo(e));
        }
    }
    proof {
        assert(db.state() == after_unsubscribe_first(old(db).state(), username@));
    }
    let ghost uname = username@;
    let s_id = new_id();
    let sub = BboxSubscription {
        id: s_id.clone(),
        south_west_lat: bbox.south_west.lat,
        south_west_lng: bbox.south_west.lng,
        north_east_lat: bbox.north_east.lat,
        north_east_lng: bbox.north_east.lng,
    };
    if let Err(e) = db.create_bbox_subscription(&sub) {
        return Err(Error::Repo(e));
    }
    let triple = Triple {
        subject: ObjectId::User(username),
        predicate: Relation::SubscribedTo,
        object: ObjectId::BboxSubscription(s_id),
    };
    match db.create_triple(&triple) {
        Ok(()) => {
            proof {
                assert(triple@ == sub_triple(uname, sub@.id));
                assert(sub_matches_bbox(sub@, *bbox));
                assert(db.state() == with_subscription(
                    after_unsubscribe_first(old(db).state(), uname),
                    uname,
                    sub@,
                ));
            }
            Ok(())
        },
        Err(e) => Err(Error::Repo(e)),
    }
}

/// Subscribes the user to the box spanned by exactly two well-oriented,
/// finite corner coordinates; any prior subscription is replaced.
pub fn subscribe_to_bbox<D: Db>(
    coordinates: &Vec<Coordinate>,
    username: &String,
    db: &mut D,
) -> (r: Result<(), Error>)
    ensures
        (r == Result::<(), Error>::Err(Error::Parameter(ParameterError::Bbox))) <==> !(
        coordinates@.len() == 2 && crate::validate::valid_bbox(
            crate::geo::Bbox { south_west: coordinates@[0], north_east: coordinates@[1] },
        )),
        r == Result::<(), Error>::Err(Error::Parameter(ParameterError::Bbox))
            ==> final(db).state() == old(db).state(),
        r is Ok ==> exists|sub: BboxSubscriptionView|
            {
                &&& final(db).state() == with_subscription(
                    after_unsubscribe_first(old(db).state(), username@),
                    username@,
                    sub,
                )
                &&& sub_matches_bbox(
                    sub,
                    crate::geo::Bbox { south_west: coordinates@[0], north_east: coordinates@[1] },
                )
            },
        r matches Err(e) ==> e is Repo || e == Error::Parameter(ParameterError::Bbox),
{
    if coordinates.len() != 2 {
        return Err(Error::Parameter(ParameterError::Bbox));
    }
    let bbox = crate::geo::Bbox { south_west: coordinates[0], north_east: coordinates[1] };
    if let Err(_) = crate::validate::bbox(&bbox) {
        return Err(Error::Parameter(ParameterError::Bbox));
    }
    match create_or_modify_subscription(&bbox, username.clone(), db) {
        Ok(()) => Ok(()),
        Err(e) => {
            proof {
                assert(e is Repo);
            }
            Err(e)
        },
    }
}

/// The subscriptions whose id occurs among `ids`, in store order.
pub open spec fn subscriptions_with_ids(
    subs: Seq<BboxSubscriptionView>,
    ids: Seq<Seq<char>>,
) -> Seq<BboxSubscriptionView>
    decreases subs.len(),
{
    if subs.len() == 0 {
        Seq::empty()
    } else {
        let init = subscriptions_with_ids(subs.drop_last(), ids);
        if ids.contains(subs.last().id) {
            init.push(subs.last())
        } else {
            init
        }
    }
}

/// The bounding-box subscriptions the user holds.
pub fn get_bbox_subscriptions<D: Db>(username: &str, db: &D) -> (r: Result<
    Vec<BboxSubscription>,
    Error,
>)
    ensures
        match r {
            Ok(v) => v.deep_view() == subscriptions_with_ids(
                db.state().bbox_subscriptions,
                user_subscription_ids(db.state().triples, username@),
            ),
            Err(e) => e is Repo,
        },
{
    let triples = match db.all_triples() {
        Ok(ts) => ts,
        Err(e) => {
            return Err(Error::Repo(e));
        },
    };
    let ids = user_subscription_ids_exec(&triples, username);
    let subs = match db.all_bbox_subscriptions() {
        Ok(ss) => ss,
        Err(e) => {
            return Err(Error::Repo(e));
        },
    };
    let ghost s = db.state().bbox_subscriptions;
    let mut out: Vec<BboxSubscription> = Vec::new();
    let mut i: usize = 0;
    while i < subs.len()
        invariant
            i <= subs.len(),
            subs.deep_view() == s,
            s.len() == subs@.len(),
            ids.deep_view() == user_subscription_ids(db.state().triples, username@),
            out.deep_view() =~= subscriptions_with_ids(s.take(i as int), ids.deep_view()),
        decreases subs.len() - i,
    {
        proof {
            assert(s.take(i as int + 1).drop_last() =~= s.take(i as int));
            assert(s.take(i as int + 1).last() == s[i as int]);
            assert(s[i as int] == subs@[i as int]@);
        }
        if contains_string(&ids, &subs[i].id) {
            out.push(subs[i].clone());
        }
        proof {
            assert(out.deep_view() =~= subscriptions_with_ids(
                s.take(i as int + 1),
                ids.deep_view(),
            ));
        }
        i = i + 1;
    }
    proof {
        assert(s.take(subs@.len() as int) =~= s);
    }
    Ok(out)
}

/// The state once each subscription named in `ids` has left, front to
/// back.
pub open spec fn after_unsubscribe_ids(v: DbViews, ids: Seq<Seq<char>>) -> DbViews
    decreases ids.len(),
{
    if ids.len() == 0 {
        v
    } else {
        after_unsubscribe_ids(views_without_subscription(v, ids.first()), ids.drop_first())
    }
}

/// Unsubscribing id by id from the front is the same as unsubscribing a
/// prefix and then the next id.
proof fn lemma_after_unsubscribe_push(v: DbViews, ids: Seq<Seq<char>>, id: Seq<char>)
    ensures
        after_unsubscribe_ids(v, ids.push(id)) == views_without_subscription(
            after_unsubscribe_ids(v, ids),
            id,
        ),
    decreases ids.len(),
{
    if ids.len() == 0 {
        assert(ids.push(id).drop_first() =~= Seq::<Seq<char>>::empty());
        assert(ids.push(id).first() == id);
        assert(after_unsubscribe_ids(views_without_subscription(v, id), ids.push(id).drop_first())
            == views_without_subscription(v, id));
        assert(after_unsubscribe_ids(v, ids) == v);
    } else {
        assert(ids.push(id).first() == ids.first());
        assert(ids.push(id).drop_first() =~= ids.drop_first().push(id));
        lemma_after_unsubscribe_push(
            views_without_subscription(v, ids.first()),
            ids.drop_first(),
            id,
        );
        assert(after_unsubscribe_ids(v, ids.push(id)) == after_unsubscribe_ids(
            views_without_subscription(v, ids.first()),
            ids.drop_first().push(id),
        ));
        assert(after_unsubscribe_ids(v, ids) == after_unsubscribe_ids(
            views_without_subscription(v, ids.first()),
            ids.drop_first(),
        ));
    }
}

/// Removes every subscription the user holds, with its linking triples.
pub fn unsubscribe_all_bboxes<D: Db>(username: &str, db: &mut D) -> (r: Result<(), Error>)
    ensures
        r is Ok ==> final(db).state() == after_unsubscribe_ids(
            old(db).state(),
            user_subscription_ids(old(db).state().triples, username@),
        ),
        r is Err ==> exists|k: int|
            0 <= k <= user_subscription_ids(old(db).state().triples, username@).len()
                && final(db).state() == after_unsubscribe_ids(
                old(db).state(),
                #[trigger] user_subscription_ids(old(db).state().triples, username@).take(k),
            ),
        r matches Err(e) ==> e is Repo,
{
    let triples = match db.all_triples() {
        Ok(ts) => ts,
        Err(e) => {
            proof {
                let ghost ids = user_subscription_ids(old(db).state().triples, username@);
                assert(ids.take(0) =~= Seq::<Seq<char>>::empty());
            }
            return Err(Error::Repo(e));
        },
    };
    let ids = user_subscription_ids_exec(&triples, username);
    let ghost idseq = ids.deep_view();
    proof {
        assert(idseq.take(0) =~= Seq::<Seq<char>>::empty());
    }
    let mut k: usize = 0;
    while k < ids.len()
        invariant
            k <= ids.len(),
            idseq == ids.deep_view(),
            idseq.len() == ids@.len(),
            idseq == user_subscription_ids(old(db).state().triples, username@),
            db.state() == after_unsubscribe_ids(old(db).state(), idseq.take(k as int)),
        decreases ids.len() - k,
    {
        proof {
            assert(idseq[k as int] == ids@[k as int]@);
        }
        if let Err(e) = db.delete_bbox_subscription(ids[k].as_str()) {
            return Err(Error::Repo(e));
        }
        proof {
            assert(idseq.take(k as int + 1) =~= idseq.take(k as int).push(idseq[k as int]));
            lemma_after_unsubscribe_push(old(db).state(), idseq.take(k as int), idseq[k as int]);
        }
        k = k + 1;
    }
    proof {
        assert(idseq.take(ids@.len() as int) =~= idseq);
    }
    Ok(())
}

/// The bounding box a subscription record describes.
pub open spec fn sub_bbox(s: BboxSubscriptionView) -> crate::geo::Bbox {
    crate::geo::Bbox {
        south_west: Coordinate { lat: s.south_west_lat, lng: s.south_west_lng },
        north_east: Coordinate { lat: s.north_east_lat, lng: s.north_east_lng },
    }
}

/// The email address of the first user carrying the id, if any.
pub open spec fn first_user_email(users: Seq<UserView>, uid: Seq<char>) -> Option<Seq<char>>
    decreases users.len(),
{
    if users.len() == 0 {
        Option::None
    } else if users.first().id == uid {
        Option::Some(users.first().email)
    } else {
        first_user_email(users.drop_first(), uid)
    }
}

/// The first subscription record carrying the id, if any.
pub open spec fn first_subscription(
    subs: Seq<BboxSubscriptionView>,
    sid: Seq<char>,
) -> Option<BboxSubscriptionView>
    decreases subs.len(),
{
    if subs.len() == 0 {
        Option::None
    } else if subs.first().id == sid {
        Option::Some(subs.first())
    } else {
        first_subscription(subs.drop_first(), sid)
    }
}

/// The email addresses to notify about the position `(lat, lng)`: for
/// every subscription link whose user and subscription record resolve,
/// the user's address if the position lies in the subscribed box; links
/// that resolve to no user or no record notify nobody.
pub open spec fn notify_emails(
    triples: Seq<TripleView>,
    users: Seq<UserView>,
    subs: Seq<BboxSubscriptionView>,
    lat: crate::geo::Degrees,
    lng: crate::geo::Degrees,
) -> Seq<Seq<char>>
    decreases triples.len(),
{
    if triples.len() == 0 {
        Seq::empty()
    } else {
        let init = notify_emails(triples.drop_last(), users, subs, lat, lng);
        let t = triples.last();
        if t.subject is User && t.predicate == Relation::SubscribedTo
            && t.object is BboxSubscription {
            let uid = t.subject->User_0;
            let sid = t.object->BboxSubscription_0;
            match (first_user_email(users, uid), first_subscription(subs, sid)) {
                (Option::Some(email), Option::Some(sub)) => {
                    if crate::geo::in_bbox_spec(lat, lng, sub_bbox(sub)) {
                        init.push(email)
                    } else {
                        init
                    }
                },
                _ => init,
            }
        } else {
            init
        }
    }
}

fn first_user_email_exec(users: &Vec<User>, uid: &String) -> (r: Option<String>)
    ensures
        r.deep_view() == first_user_email(users.deep_view(), uid@),
{
    let ghost s = users.deep_view();
    proof {
        assert(s.skip(0) =~= s);
    }
    let mut i: usize = 0;
    while i < users.len()
        invariant
            i <= users.len(),
            s == users.deep_view(),
            s.len() == users@.len(),
            first_user_email(s, uid@) == first_user_email(s.skip(i as int), uid@),
        decreases users.len() - i,
    {
        proof {
            assert(s.skip(i as int).first() == s[i as int]);
            assert(s[i as int] == users@[i as int]@);
            assert(s.skip(i as int).drop_first() =~= s.skip(i as int + 1));
        }
        if str_eq(users[i].id.as_str(), uid.as_str()) {
            return Some(users[i].email.clone());
        }
        i = i + 1;
    }
    proof {
        assert(s.skip(users@.len() as int) =~= Seq::<UserView>::empty());
    }
    None
}

fn first_subscription_exec(subs: &Vec<BboxSubscription>, sid: &String) -> (r: Option<
    BboxSubscription,
>)
    ensures
        r.deep_view() == first_subscription(subs.deep_view(), sid@),
{
    let ghost s = subs.deep_view();
    proof {
        assert(s.skip(0) =~= s);
    }
    let mut i: usize = 0;
    while i < subs.len()
        invariant
            i <= subs.len(),
            s == subs.deep_view(),
            s.len() == subs@.len(),
            first_subscription(s, sid@) == first_subscription(s.skip(i as int), sid@),
        decreases subs.len() - i,
    {
        proof {
            assert(s.skip(i as int).first() == s[i as int]);
            assert(s[i as int] == subs@[i as int]@);
            assert(s.skip(i as int).drop_first() =~= s.skip(i as int + 1));
        }
        if str_eq(subs[i].id.as_str(), sid.as_str()) {
            return Some(subs[i].clone());
        }
        i = i + 1;
    }
    proof {
        assert(s.skip(subs@.len() as int) =~= Seq::<BboxSubscriptionView>::empty());
    }
    None
}

/// The email addresses of every user whose subscribed box contains the
/// position `(lat, lng)`.
pub fn email_addresses_to_notify<D: Db>(
    lat: &crate::geo::Degrees,
    lng: &crate::geo::Degrees,
    db: &D,
) -> (r: Result<Vec<String>, Error>)
    ensures
        match r {
            Ok(v) => v.deep_view() == notify_emails(
                db.state().triples,
                db.state().users,
                db.state().bbox_subscriptions,
                *lat,
                *lng,
            ),
            Err(e) => e is Repo,
        },
{
    let triples = match db.all_triples() {
        Ok(ts) => ts,
        Err(e) => {
            return Err(Error::Repo(e));
        },
    };
    let users = match db.all_users() {
        Ok(us) => us,
        Err(e) => {
            return Err(Error::Repo(e));
        },
    };
    let subs = match db.all_bbox_subscriptions() {
        Ok(ss) => ss,
        Err(e) => {
            return Err(Error::Repo(e));
        },
    };
    let ghost s = db.state().triples;
    let mut out: Vec<String> = Vec::new();
    let mut i: usize = 0;
    while i < triples.len()
        invariant
            i <= triples.len(),
            triples.deep_view() == s,
            s.len() == triples@.len(),
            users.deep_view() == db.state().users,
            subs.deep_view() == db.state().bbox_subscriptions,
            out.deep_view() =~= notify_emails(
                s.take(i as int),
                db.state().users,
                db.state().bbox_subscriptions,
                *lat,
                *lng,
            ),
        decreases triples.len() - i,
    {
        proof {
            assert(s.take(i as int + 1).drop_last() =~= s.take(i as int));
            assert(s.take(i as int + 1).last() == s[i as int]);
            assert(s[i as int] == triples@[i as int]@);
        }
        let t = &triples[i];
        match (&t.subject, &t.predicate, &t.object) {
            (ObjectId::User(uid), Relation::SubscribedTo, ObjectId::BboxSubscription(sid)) => {
                match (first_user_email_exec(&users, uid), first_subscription_exec(&subs, sid)) {
                    (Some(email), Some(sub)) => {
                        let b = crate::geo::Bbox {
                            south_west: Coordinate {
                                lat: sub.south_west_lat,
                                lng: sub.south_west_lng,
                            },
                            north_east: Coordinate {
                                lat: sub.north_east_lat,
                                lng: sub.north_east_lng,
                            },
                        };
                        if crate::geo::is_in_bbox(lat, lng, &b) {
                            out.push(email);
                        }
                    },
                    _ => {},
                }
            },
            _ => {},
        }
        proof {
            assert(out.deep_view() =~= notify_emails(
                s.take(i as int + 1),
                db.state().users,
                db.state().bbox_subscriptions,
                *lat,
                *lng,
            ));
        }
        i = i + 1;
    }
    proof {
        assert(s.take(triples@.len() as int) =~= s);
    }
    Ok(out)
}

/// At most this many near-miss results are surfaced from outside the
/// viewport.
pub const MAX_INVISIBLE_RESULTS: usize = 5;

/// The latitude margin added on each side of a search box, in millionths
/// of a degree (0.02 degrees).
pub const BBOX_LAT_EXT_MICRO: i64 = 20_000;

/// The longitude margin added on each side of a search box, in millionths
/// of a degree (0.04 degrees).
pub const BBOX_LNG_EXT_MICRO: i64 = 40_000;

/// The requested box inflated by the fixed margins: the south-west corner
/// shifted down, the north-east corner shifted up. A list of fewer than
/// two corners stays as it is.
pub open spec fn extended_bbox(b: Seq<Coordinate>) -> Seq<Coordinate> {
    if b.len() < 2 {
        b
    } else {
        b.update(
            0,
            Coordinate {
                lat: crate::geo::deg_shifted(b[0].lat, -(BBOX_LAT_EXT_MICRO as int)),
                lng: crate::geo::deg_shifted(b[0].lng, -(BBOX_LNG_EXT_MICRO as int)),
            },
        ).update(
            1,
            Coordinate {
                lat: crate::geo::deg_shifted(b[1].lat, BBOX_LAT_EXT_MICRO as int),
                lng: crate::geo::deg_shifted(b[1].lng, BBOX_LNG_EXT_MICRO as int),
            },
        )
    }
}

/// Inflates the requested box by the fixed margins, so that entries just
/// outside the viewport stay available as near-miss results.
pub fn extend_bbox(bbox: &Vec<Coordinate>) -> (r: Vec<Coordinate>)
    ensures
        r@ == extended_bbox(bbox@),
{
    let mut r: Vec<Coordinate> = Vec::new();
    let mut i: usize = 0;
    while i < bbox.len()
        invariant
            i <= bbox@.len(),
            r@ =~= bbox@.take(i as int),
        decreases bbox@.len() - i,
    {
        r.push(bbox[i]);
        proof {
            assert(r@ =~= bbox@.take(i as int + 1));
        }
        i = i + 1;
    }
    proof {
        assert(r@ =~= bbox@);
    }
    if r.len() < 2 {
        return r;
    }
    let sw = r[0];
    let ne = r[1];
    let new_sw = Coordinate {
        lat: crate::geo::deg_sub_micro(sw.lat, BBOX_LAT_EXT_MICRO),
        lng: crate::geo::deg_sub_micro(sw.lng, BBOX_LNG_EXT_MICRO),
    };
    let new_ne = Coordinate {
        lat: crate::geo::deg_add_micro(ne.lat, BBOX_LAT_EXT_MICRO),
        lng: crate::geo::deg_add_micro(ne.lng, BBOX_LNG_EXT_MICRO),
    };
    r.set(0, new_sw);
    r.set(1, new_ne);
    proof {
        assert(r@ =~= extended_bbox(bbox@));
    }
    r
}

/// One row of the rating lookup a search request carries: an entry id and
/// the precomputed average rating of that entry.
#[derive(Debug)]
pub struct EntryRating {
    pub entry_id: String,
    pub avg: AvgRating,
}

/// The mathematical view of an [`EntryRating`].
pub struct EntryRatingView {
    pub entry_id: Seq<char>,
    pub avg: AvgRating,
}

impl View for EntryRating {
    type V = EntryRatingView;

    open spec fn view(&self) -> EntryRatingView {
        EntryRatingView { entry_id: self.entry_id@, avg: self.avg }
    }
}

impl DeepView for EntryRating {
    type V = EntryRatingView;

    open spec fn deep_view(&self) -> EntryRatingView {
        self.view()
    }
}

/// The average the lookup holds for the entry: the first matching row, or
/// zero (the average of an unrated entry) when no row matches.
pub open spec fn rating_of(lookup: Seq<EntryRatingView>, id: Seq<char>) -> AvgRating
    decreases lookup.len(),
{
    if lookup.len() == 0 {
        AvgRating { sum: 0, count: 1 }
    } else if lookup.first().entry_id == id {
        lookup.first().avg
    } else {
        rating_of(lookup.drop_first(), id)
    }
}

fn rating_of_exec(lookup: &Vec<EntryRating>, id: &String) -> (r: AvgRating)
    ensures
        r == rating_of(lookup.deep_view(), id@),
{
    let ghost s = lookup.deep_view();
    proof {
        assert(s.skip(0) =~= s);
    }
    let mut i: usize = 0;
    while i < lookup.len()
        invariant
            i <= lookup.len(),
            s == lookup.deep_view(),
            s.len() == lookup@.len(),
            rating_of(s, id@) == rating_of(s.skip(i as int), id@),
        decreases lookup.len() - i,
    {
        proof {
            assert(s.skip(i as int).first() == s[i as int]);
            assert(s[i as int] == lookup@[i as int]@);
            assert(s.skip(i as int).drop_first() =~= s.skip(i as int + 1));
        }
        if str_eq(lookup[i].entry_id.as_str(), id.as_str()) {
            return lookup[i].avg;
        }
        i = i + 1;
    }
    proof {
        assert(s.skip(lookup@.len() as int) =~= Seq::<EntryRatingView>::empty());
    }
    AvgRating { sum: 0, count: 1 }
}

/// A search request: the viewport, an optional category filter, free text
/// (which may embed hashtags), explicit tags, and a rating lookup indexed
/// by entry id.
#[derive(Debug)]
pub struct SearchRequest {
    pub bbox: Vec<Coordinate>,
    pub categories: Option<Vec<String>>,
    pub text: String,
    pub tags: Vec<String>,
    pub entry_ratings: Vec<EntryRating>,
}

/// The category-filter part of a request: vacuous when no filter was
/// supplied, never vacuous for a supplied (even empty) id set.
pub open spec fn stage_cat_ok(e: EntryView, cats: Option<Seq<Seq<char>>>) -> bool {
    cats matches Some(ids) ==> crate::filter::category_filter_matches(e, ids)
}

/// The tag-filter part of a request: vacuous only when no tag was asked
/// for at all.
pub open spec fn stage_tag_ok(
    e: EntryView,
    merged: Seq<Seq<char>>,
    triples: Seq<TripleView>,
) -> bool {
    merged.len() > 0 ==> crate::filter::tag_filter_matches(
        e,
        merged,
        triples,
        crate::filter::Combination::Or,
    )
}

/// An entry of the repository that lies in the extended search box.
pub open spec fn from_db_in_ext(
    e: EntryView,
    entries: Seq<EntryView>,
    ext: Seq<Coordinate>,
) -> bool {
    entries.contains(e) && crate::filter::entry_in_bbox(e, ext)
}

/// Every id names some entry of the repository lying in the given box.
pub open spec fn ids_from_box(
    ids: Seq<Seq<char>>,
    entries: Seq<EntryView>,
    corners: Seq<Coordinate>,
) -> bool {
    forall|m: int|
        0 <= m < ids.len() ==> exists|e: EntryView|
            entries.contains(e) && e.id == #[trigger] ids[m] && crate::filter::entry_in_bbox(
                e,
                corners,
            )
}

/// The ids descend by their looked-up average rating.
pub open spec fn ids_sorted_by_rating(ids: Seq<Seq<char>>, lookup: Seq<EntryRatingView>) -> bool {
    forall|i: int, j: int|
        0 <= i < j < ids.len() ==> rating_of(lookup, #[trigger] ids[i]).ge(
            rating_of(lookup, #[trigger] ids[j]),
        )
}

/// No string occurs in both sequences.
pub open spec fn id_seqs_disjoint(a: Seq<Seq<char>>, b: Seq<Seq<char>>) -> bool {
    forall|i: int, j: int|
        0 <= i < a.len() && 0 <= j < b.len() ==> #[trigger] a[i] != #[trigger] b[j]
}

/// The tags a search request carries: the hashtags embedded in its text,
/// followed by its explicit tag list.
pub open spec fn merged_search_tags(text: Seq<char>, req_tags: Seq<Seq<char>>) -> Seq<Seq<char>> {
    crate::text::tags_from(text, 0) + req_tags
}

/// Whether an entry passes every filter of a search request: the category
/// filter when one was given, the merged tag filter when any tag was
/// asked for, and the free-text filter on the residual text.
pub open spec fn search_filters_pass(
    e: EntryView,
    cats: Option<Seq<Seq<char>>>,
    text: Seq<char>,
    req_tags: Seq<Seq<char>>,
    triples: Seq<TripleView>,
) -> bool {
    &&& (cats matches Some(ids) ==> crate::filter::category_filter_matches(e, ids))
    &&& (merged_search_tags(text, req_tags).len() > 0 ==> crate::filter::tag_filter_matches(
        e,
        merged_search_tags(text, req_tags),
        triples,
        crate::filter::Combination::Or,
    ))
    &&& crate::filter::text_filter_matches(e, crate::text::remove_hash_tags_spec(text))
}

/// Every id names some entry of the repository that passes every filter
/// of the request.
pub open spec fn ids_pass_filters(
    ids: Seq<Seq<char>>,
    entries: Seq<EntryView>,
    cats: Option<Seq<Seq<char>>>,
    text: Seq<char>,
    req_tags: Seq<Seq<char>>,
    triples: Seq<TripleView>,
) -> bool {
    forall|m: int|
        0 <= m < ids.len() ==> exists|e: EntryView|
            entries.contains(e) && e.id == #[trigger] ids[m] && search_filters_pass(
                e,
                cats,
                text,
                req_tags,
                triples,
            )
}

/// An entry that matches the search: it lies in `ext` and passes every
/// requested filter.
pub open spec fn matches_search_in(
    e: EntryView,
    ext: Seq<Coordinate>,
    cats: Option<Seq<Seq<char>>>,
    text: Seq<char>,
    req_tags: Seq<Seq<char>>,
    triples: Seq<TripleView>,
) -> bool {
    crate::filter::entry_in_bbox(e, ext) && search_filters_pass(e, cats, text, req_tags, triples)
}

/// Completeness of the visible results: every entry of the repository
/// that matches the search within the extended box and lies in the
/// requested box itself has its id among the visible ids.
pub open spec fn visible_complete(
    entries: Seq<EntryView>,
    vis: Seq<Seq<char>>,
    bbox: Seq<Coordinate>,
    cats: Option<Seq<Seq<char>>>,
    text: Seq<char>,
    req_tags: Seq<Seq<char>>,
    triples: Seq<TripleView>,
) -> bool {
    forall|k: int|
        0 <= k < entries.len() && matches_search_in(
            #[trigger] entries[k],
            extended_bbox(bbox),
            cats,
            text,
            req_tags,
            triples,
        ) && crate::filter::entry_in_bbox(entries[k], bbox) ==> vis.contains(entries[k].id)
}

/// Coverage of the near-miss results: a matching entry whose id is not
/// among the visible ids has its id among the invisible ones, unless
/// those already stand at their cap — and then only because everything
/// they name ranks at least as high.
pub open spec fn invisible_covers(
    entries: Seq<EntryView>,
    vis: Seq<Seq<char>>,
    inv: Seq<Seq<char>>,
    lookup: Seq<EntryRatingView>,
    bbox: Seq<Coordinate>,
    cats: Option<Seq<Seq<char>>>,
    text: Seq<char>,
    req_tags: Seq<Seq<char>>,
    triples: Seq<TripleView>,
) -> bool {
    forall|k: int|
        0 <= k < entries.len() && matches_search_in(
            #[trigger] entries[k],
            extended_bbox(bbox),
            cats,
            text,
            req_tags,
            triples,
        ) && !vis.contains(entries[k].id) ==> inv.contains(entries[k].id) || (inv.len()
            == MAX_INVISIBLE_RESULTS as int && forall|a: int|
            0 <= a < inv.len() ==> rating_of(lookup, #[trigger] inv[a]).ge(
                rating_of(lookup, entries[k].id),
            ))
}

/// Every entry of `entries` lying in `ext` occurs among `held`.
spec fn ext_matches_held(entries: Seq<EntryView>, held: Seq<EntryView>, ext: Seq<Coordinate>) -> bool {
    forall|k: int|
        0 <= k < entries.len() && crate::filter::entry_in_bbox(#[trigger] entries[k], ext)
            ==> held.contains(entries[k])
}

/// Every entry of `entries` lying in `ext` and passing the category
/// filter occurs among `held`.
spec fn ext_cat_matches_held(
    entries: Seq<EntryView>,
    held: Seq<EntryView>,
    ext: Seq<Coordinate>,
    cats: Option<Seq<Seq<char>>>,
) -> bool {
    forall|k: int|
        0 <= k < entries.len() && crate::filter::entry_in_bbox(#[trigger] entries[k], ext)
            && stage_cat_ok(entries[k], cats) ==> held.contains(entries[k])
}

/// Every entry of `entries` lying in `ext` and passing the category and
/// tag filters occurs among `held`.
spec fn ext_cat_tag_matches_held(
    entries: Seq<EntryView>,
    held: Seq<EntryView>,
    ext: Seq<Coordinate>,
    cats: Option<Seq<Seq<char>>>,
    merged: Seq<Seq<char>>,
    triples: Seq<TripleView>,
) -> bool {
    forall|k: int|
        0 <= k < entries.len() && crate::filter::entry_in_bbox(#[trigger] entries[k], ext)
            && stage_cat_ok(entries[k], cats) && stage_tag_ok(entries[k], merged, triples)
            ==> held.contains(entries[k])
}

/// Every matching entry occurs among `held`.
spec fn matches_all_held(
    entries: Seq<EntryView>,
    held: Seq<EntryView>,
    ext: Seq<Coordinate>,
    cats: Option<Seq<Seq<char>>>,
    text: Seq<char>,
    req_tags: Seq<Seq<char>>,
    triples: Seq<TripleView>,
) -> bool {
    forall|k: int|
        0 <= k < entries.len() && matches_search_in(
            #[trigger] entries[k],
            ext,
            cats,
            text,
            req_tags,
            triples,
        ) ==> held.contains(entries[k])
}

/// Every matching entry occurs in one of the two holdings.
spec fn matches_split_held(
    entries: Seq<EntryView>,
    held_a: Seq<EntryView>,
    held_b: Seq<EntryView>,
    ext: Seq<Coordinate>,
    cats: Option<Seq<Seq<char>>>,
    text: Seq<char>,
    req_tags: Seq<Seq<char>>,
    triples: Seq<TripleView>,
) -> bool {
    forall|k: int|
        0 <= k < entries.len() && matches_search_in(
            #[trigger] entries[k],
            ext,
            cats,
            text,
            req_tags,
            triples,
        ) ==> held_a.contains(entries[k]) || held_b.contains(entries[k])
}

/// The entry views held in a pair sequence.
spec fn pair_entry_views(ps: Seq<(Entry, AvgRating)>) -> Seq<EntryView> {
    Seq::new(ps.len(), |j: int| ps[j].0.deep_view())
}

/// The bounded search: entries inside the extended box pass the category,
/// tag and text filters, are ordered by average rating (descending), and
/// are split into the `visible` ids (inside the original box) and at most
/// [`MAX_INVISIBLE_RESULTS`] `invisible` near-miss ids; no id is returned
/// on both sides, everything returned lies in the extended box, every
/// matching entry is surfaced (`visible` is never truncated; `invisible`
/// only at its cap, and then only for lower-ranked entries).
pub fn search<D: Db>(db: &D, req: SearchRequest) -> (r: Result<(Vec<String>, Vec<String>), Error>)
    requires
        forall|k: int|
            0 <= k < req.entry_ratings@.len() ==> (#[trigger] req.entry_ratings@[k]).avg.wf(),
    ensures
        match r {
            Ok(res) => {
                &&& res.1@.len() <= MAX_INVISIBLE_RESULTS as int
                &&& id_seqs_disjoint(res.0.deep_view(), res.1.deep_view())
                &&& ids_from_box(res.0.deep_view(), db.state().entries, req.bbox@)
                &&& ids_from_box(res.0.deep_view(), db.state().entries, extended_bbox(req.bbox@))
                &&& ids_from_box(res.1.deep_view(), db.state().entries, extended_bbox(req.bbox@))
                &&& ids_sorted_by_rating(res.0.deep_view(), req.entry_ratings.deep_view())
                &&& ids_sorted_by_rating(res.1.deep_view(), req.entry_ratings.deep_view())
                &&& ids_pass_filters(
                    res.0.deep_view(),
                    db.state().entries,
                    req.categories.deep_view(),
                    req.text@,
                    req.tags.deep_view(),
                    db.state().triples,
                )
                &&& ids_pass_filters(
                    res.1.deep_view(),
                    db.state().entries,
                    req.categories.deep_view(),
                    req.text@,
                    req.tags.deep_view(),
                    db.state().triples,
                )
                &&& visible_complete(
                    db.state().entries,
                    res.0.deep_view(),
                    req.bbox@,
                    req.categories.deep_view(),
                    req.text@,
                    req.tags.deep_view(),
                    db.state().triples,
                )
                &&& invisible_covers(
                    db.state().entries,
                    res.0.deep_view(),
                    res.1.deep_view(),
                    req.entry_ratings.deep_view(),
                    req.bbox@,
                    req.categories.deep_view(),
                    req.text@,
                    req.tags.deep_view(),
                    db.state().triples,
                )
            },
            Err(e) => e is Repo,
        },
{
    let ghost db_entries = db.state().entries;
    let ghost ext_view = extended_bbox(req.bbox@);
    let ghost cats_view = req.categories.deep_view();
    let ghost text_view = req.text@;
    let ghost rtags_view = req.tags.deep_view();
    let ghost db_triples = db.state().triples;
    let ghost merged = merged_search_tags(text_view, rtags_view);
    let all = match db.all_entries() {
        Ok(es) => es,
        Err(e) => {
            return Err(Error::Repo(e));
        },
    };
    let ext = extend_bbox(&req.bbox);
    // Entries within the extended bounding box.
    let mut cur: Vec<Entry> = Vec::new();
    let mut i: usize = 0;
    while i < all.len()
        invariant
            i <= all.len(),
            all.deep_view() == db_entries,
            db_entries.len() == all@.len(),
            ext@ == ext_view,
            forall|k: int|
                0 <= k < cur@.len() ==> from_db_in_ext(
                    (#[trigger] cur@[k]).deep_view(),
                    db_entries,
                    ext_view,
                ),
            forall|k: int|
                0 <= k < i as int && crate::filter::entry_in_bbox(
                    #[trigger] db_entries[k],
                    ext_view,
                ) ==> cur.deep_view().contains(db_entries[k]),
        decreases all.len() - i,
    {
        proof {
            assert(all@[i as int].deep_view() == db_entries[i as int]);
        }
        let ghost cur_pre = cur.deep_view();
        if crate::filter::InBBox::in_bbox(&all[i], &ext) {
            cur.push(all[i].clone());
            proof {
                assert forall|k: int|
                    0 <= k < i as int + 1 && crate::filter::entry_in_bbox(
                        #[trigger] db_entries[k],
                        ext_view,
                    ) implies cur.deep_view().contains(db_entries[k]) by {
                    if k < i as int {
                        let j = choose|j: int|
                            0 <= j < cur_pre.len() && (#[trigger] cur_pre[j]) == db_entries[k];
                        assert(cur.deep_view()[j] == db_entries[k]);
                    } else {
                        assert(cur.deep_view().last() == db_entries[i as int]);
                    }
                }
            }
        } else {
            proof {
                assert(!crate::filter::entry_in_bbox(db_entries[i as int], ext_view));
            }
        }
        i = i + 1;
    }
    proof {
        assert(ext_matches_held(db_entries, cur.deep_view(), ext_view));
    }
    // The category filter, when one was requested.
    match &req.categories {
        Some(cat_ids) => {
            proof {
                assert(cats_view matches Some(cv) && cv == cat_ids.deep_view());
            }
            let mut kept: Vec<Entry> = Vec::new();
            let mut k: usize = 0;
            while k < cur.len()
                invariant
                    k <= cur.len(),
                    cats_view matches Some(cv) && cv == cat_ids.deep_view(),
                    forall|m: int|
                        0 <= m < cur@.len() ==> from_db_in_ext(
                            (#[trigger] cur@[m]).deep_view(),
                            db_entries,
                            ext_view,
                        ),
                    forall|m: int|
                        0 <= m < kept@.len() ==> from_db_in_ext(
                            (#[trigger] kept@[m]).deep_view(),
                            db_entries,
                            ext_view,
                        ) && stage_cat_ok((#[trigger] kept@[m]).deep_view(), cats_view),
                    forall|m: int|
                        0 <= m < k as int && crate::filter::category_filter_matches(
                            (#[trigger] cur@[m]).deep_view(),
                            cat_ids.deep_view(),
                        ) ==> kept.deep_view().contains(cur@[m].deep_view()),
                decreases cur.len() - k,
            {
                let ghost kept_pre = kept.deep_view();
                if crate::filter::entry_matches_categories(&cur[k], cat_ids) {
                    kept.push(cur[k].clone());
                    proof {
                        assert forall|m: int|
                            0 <= m < k as int + 1 && crate::filter::category_filter_matches(
                                (#[trigger] cur@[m]).deep_view(),
                                cat_ids.deep_view(),
                            ) implies kept.deep_view().contains(cur@[m].deep_view()) by {
                            if m < k as int {
                                let j = choose|j: int|
                                    0 <= j < kept_pre.len() && (#[trigger] kept_pre[j]) == cur@[
                                    m].deep_view();
                                assert(kept.deep_view()[j] == cur@[m].deep_view());
                            } else {
                                assert(kept.deep_view().last() == cur@[k as int].deep_view());
                            }
                        }
                    }
                }
                k = k + 1;
            }
            proof {
                assert forall|k2: int|
                    0 <= k2 < db_entries.len() && crate::filter::entry_in_bbox(
                        #[trigger] db_entries[k2],
                        ext_view,
                    ) && stage_cat_ok(db_entries[k2], cats_view) implies kept.deep_view().contains(
                    db_entries[k2],
                ) by {
                    assert(cur.deep_view().contains(db_entries[k2]));
                    let j = choose|j: int|
                        0 <= j < cur.deep_view().len() && (#[trigger] cur.deep_view()[j])
                            == db_entries[k2];
                    assert(cur@[j].deep_view() == db_entries[k2]);
                    assert(crate::filter::category_filter_matches(
                        cur@[j].deep_view(),
                        cat_ids.deep_view(),
                    ));
                    assert(kept.deep_view().contains(cur@[j].deep_view()));
                }
                assert(ext_cat_matches_held(db_entries, kept.deep_view(), ext_view, cats_view));
            }
            cur = kept;
        },
        None => {
            proof {
                assert(cats_view is None);
                assert(forall|m: int|
                    0 <= m < cur@.len() ==> stage_cat_ok(
                        (#[trigger] cur@[m]).deep_view(),
                        cats_view,
                    ));
                assert forall|k2: int|
                    0 <= k2 < db_entries.len() && crate::filter::entry_in_bbox(
                        #[trigger] db_entries[k2],
                        ext_view,
                    ) && stage_cat_ok(db_entries[k2], cats_view) implies cur.deep_view().contains(
                    db_entries[k2],
                ) by {}
                assert(ext_cat_matches_held(db_entries, cur.deep_view(), ext_view, cats_view));
            }
        },
    }
    // Hashtags from the text merged with the explicit tag list.
    let mut tags = crate::text::extract_hash_tags(req.text.as_str());
    proof {
        assert(rtags_view.take(0) =~= Seq::<Seq<char>>::empty());
        assert(tags.deep_view() =~= crate::text::tags_from(text_view, 0) + rtags_view.take(0));
    }
    let mut k: usize = 0;
    while k < req.tags.len()
        invariant
            k <= req.tags.len(),
            rtags_view == req.tags.deep_view(),
            rtags_view.len() == req.tags@.len(),
            tags.deep_view() =~= crate::text::tags_from(text_view, 0) + rtags_view.take(k as int),
        decreases req.tags.len() - k,
    {
        proof {
            assert(rtags_view[k as int] == req.tags@[k as int]@);
            assert(rtags_view.take(k as int + 1) =~= rtags_view.take(k as int).push(
                rtags_view[k as int],
            ));
        }
        let ghost tg_pre = tags.deep_view();
        tags.push(req.tags[k].clone());
        proof {
            assert(tags.deep_view() =~= tg_pre.push(rtags_view[k as int]));
            assert(tags.deep_view() =~= crate::text::tags_from(text_view, 0) + rtags_view.take(
                k as int + 1,
            ));
        }
        k = k + 1;
    }
    proof {
        assert(rtags_view.take(req.tags@.len() as int) =~= rtags_view);
        assert(tags.deep_view() =~= merged);
    }
    if tags.len() > 0 {
        let triples = match db.all_triples() {
            Ok(ts) => ts,
            Err(e) => {
                return Err(Error::Repo(e));
            },
        };
        let mut kept: Vec<Entry> = Vec::new();
        let mut k2: usize = 0;
        while k2 < cur.len()
            invariant
                k2 <= cur.len(),
                tags.deep_view() == merged,
                triples.deep_view() == db_triples,
                forall|m: int|
                    0 <= m < cur@.len() ==> from_db_in_ext(
                        (#[trigger] cur@[m]).deep_view(),
                        db_entries,
                        ext_view,
                    ) && stage_cat_ok((#[trigger] cur@[m]).deep_view(), cats_view),
                forall|m: int|
                    0 <= m < kept@.len() ==> from_db_in_ext(
                        (#[trigger] kept@[m]).deep_view(),
                        db_entries,
                        ext_view,
                    ) && stage_cat_ok((#[trigger] kept@[m]).deep_view(), cats_view)
                        && stage_tag_ok((#[trigger] kept@[m]).deep_view(), merged, db_triples),
                forall|m: int|
                    0 <= m < k2 as int && crate::filter::tag_filter_matches(
                        (#[trigger] cur@[m]).deep_view(),
                        merged,
                        db_triples,
                        crate::filter::Combination::Or,
                    ) ==> kept.deep_view().contains(cur@[m].deep_view()),
            decreases cur.len() - k2,
        {
            let ghost kept_pre = kept.deep_view();
            if crate::filter::entry_matches_tags(
                &cur[k2],
                &tags,
                &triples,
                crate::filter::Combination::Or,
            ) {
                kept.push(cur[k2].clone());
                proof {
                    assert forall|m: int|
                        0 <= m < k2 as int + 1 && crate::filter::tag_filter_matches(
                            (#[trigger] cur@[m]).deep_view(),
                            merged,
                            db_triples,
                            crate::filter::Combination::Or,
                        ) implies kept.deep_view().contains(cur@[m].deep_view()) by {
                        if m < k2 as int {
                            let j = choose|j: int|
                                0 <= j < kept_pre.len() && (#[trigger] kept_pre[j]) == cur@[
                                m].deep_view();
                            assert(kept.deep_view()[j] == cur@[m].deep_view());
                        } else {
                            assert(kept.deep_view().last() == cur@[k2 as int].deep_view());
                        }
                    }
                }
            }
            k2 = k2 + 1;
        }
        proof {
            assert forall|kk: int|
                0 <= kk < db_entries.len() && crate::filter::entry_in_bbox(
                    #[trigger] db_entries[kk],
                    ext_view,
                ) && stage_cat_ok(db_entries[kk], cats_view) && stage_tag_ok(
                    db_entries[kk],
                    merged,
                    db_triples,
                ) implies kept.deep_view().contains(db_entries[kk]) by {
                assert(cur.deep_view().contains(db_entries[kk]));
                let j = choose|j: int|
                    0 <= j < cur.deep_view().len() && (#[trigger] cur.deep_view()[j])
                        == db_entries[kk];
                assert(cur@[j].deep_view() == db_entries[kk]);
                assert(merged.len() > 0);
                assert(crate::filter::tag_filter_matches(
                    cur@[j].deep_view(),
                    merged,
                    db_triples,
                    crate::filter::Combination::Or,
                ));
                assert(kept.deep_view().contains(cur@[j].deep_view()));
            }
            assert(ext_cat_tag_matches_held(
                db_entries,
                kept.deep_view(),
                ext_view,
                cats_view,
                merged,
                db_triples,
            ));
        }
        cur = kept;
    } else {
        proof {
            assert(merged.len() == 0);
            assert(forall|m: int|
                0 <= m < cur@.len() ==> stage_tag_ok(
                    (#[trigger] cur@[m]).deep_view(),
                    merged,
                    db_triples,
                ));
            assert forall|kk: int|
                0 <= kk < db_entries.len() && crate::filter::entry_in_bbox(
                    #[trigger] db_entries[kk],
                    ext_view,
                ) && stage_cat_ok(db_entries[kk], cats_view) && stage_tag_ok(
                    db_entries[kk],
                    merged,
                    db_triples,
                ) implies cur.deep_view().contains(db_entries[kk]) by {}
            assert(ext_cat_tag_matches_held(
                db_entries,
                cur.deep_view(),
                ext_view,
                cats_view,
                merged,
                db_triples,
            ));
        }
    }
    // The residual text as the plain free-text filter.
    proof {
        assert(ext_cat_tag_matches_held(
            db_entries,
            cur.deep_view(),
            ext_view,
            cats_view,
            merged,
            db_triples,
        ));
    }
    let txt = crate::text::remove_hash_tags(req.text.as_str());
    let mut kept: Vec<Entry> = Vec::new();
    let mut k3: usize = 0;
    while k3 < cur.len()
        invariant
            k3 <= cur.len(),
            txt@ == crate::text::remove_hash_tags_spec(text_view),
            merged == merged_search_tags(text_view, rtags_view),
            forall|m: int|
                0 <= m < cur@.len() ==> from_db_in_ext(
                    (#[trigger] cur@[m]).deep_view(),
                    db_entries,
                    ext_view,
                ) && stage_cat_ok((#[trigger] cur@[m]).deep_view(), cats_view) && stage_tag_ok(
                    (#[trigger] cur@[m]).deep_view(),
                    merged,
                    db_triples,
                ),
            forall|m: int|
                0 <= m < kept@.len() ==> from_db_in_ext(
                    (#[trigger] kept@[m]).deep_view(),
                    db_entries,
                    ext_view,
                ) && search_filters_pass(
                    (#[trigger] kept@[m]).deep_view(),
                    cats_view,
                    text_view,
                    rtags_view,
                    db_triples,
                ),
            forall|m: int|
                0 <= m < k3 as int && crate::filter::text_filter_matches(
                    (#[trigger] cur@[m]).deep_view(),
                    crate::text::remove_hash_tags_spec(text_view),
                ) ==> kept.deep_view().contains(cur@[m].deep_view()),
        decreases cur.len() - k3,
    {
        let ghost kept_pre = kept.deep_view();
        if crate::filter::entry_matches_text(&cur[k3], txt.as_str()) {
            proof {
                assert(search_filters_pass(
                    (cur@[k3 as int]).deep_view(),
                    cats_view,
                    text_view,
                    rtags_view,
                    db_triples,
                ));
            }
            kept.push(cur[k3].clone());
            proof {
                assert forall|m: int|
                    0 <= m < k3 as int + 1 && crate::filter::text_filter_matches(
                        (#[trigger] cur@[m]).deep_view(),
                        crate::text::remove_hash_tags_spec(text_view),
                    ) implies kept.deep_view().contains(cur@[m].deep_view()) by {
                    if m < k3 as int {
                        let j = choose|j: int|
                            0 <= j < kept_pre.len() && (#[trigger] kept_pre[j]) == cur@[
                            m].deep_view();
                        assert(kept.deep_view()[j] == cur@[m].deep_view());
                    } else {
                        assert(kept.deep_view().last() == cur@[k3 as int].deep_view());
                    }
                }
            }
        }
        k3 = k3 + 1;
    }
    proof {
        assert forall|kk: int|
            0 <= kk < db_entries.len() && matches_search_in(
                #[trigger] db_entries[kk],
                ext_view,
                cats_view,
                text_view,
                rtags_view,
                db_triples,
            ) implies kept.deep_view().contains(db_entries[kk]) by {
            assert(cur.deep_view().contains(db_entries[kk]));
            let j = choose|j: int|
                0 <= j < cur.deep_view().len() && (#[trigger] cur.deep_view()[j]) == db_entries[
                kk];
            assert(cur@[j].deep_view() == db_entries[kk]);
            assert(crate::filter::text_filter_matches(
                cur@[j].deep_view(),
                crate::text::remove_hash_tags_spec(text_view),
            ));
            assert(kept.deep_view().contains(cur@[j].deep_view()));
        }
        assert(matches_all_held(
            db_entries,
            kept.deep_view(),
            ext_view,
            cats_view,
            text_view,
            rtags_view,
            db_triples,
        ));
    }
    cur = kept;
    // Stable sort, descending by the looked-up average rating.
    let mut pairs: Vec<(Entry, AvgRating)> = Vec::new();
    proof {
        assert(pair_entry_views(pairs@) =~= Seq::<EntryView>::empty());
        assert forall|kk: int|
            0 <= kk < db_entries.len() && matches_search_in(
                #[trigger] db_entries[kk],
                ext_view,
                cats_view,
                text_view,
                rtags_view,
                db_triples,
            ) implies cur.deep_view().contains(db_entries[kk]) || pair_entry_views(
            pairs@,
        ).contains(db_entries[kk]) by {
            assert(cur.deep_view().contains(db_entries[kk]));
        }
        assert(matches_split_held(
            db_entries,
            cur.deep_view(),
            pair_entry_views(pairs@),
            ext_view,
            cats_view,
            text_view,
            rtags_view,
            db_triples,
        ));
    }
    while cur.len() > 0
        invariant
            matches_split_held(
                db_entries,
                cur.deep_view(),
                pair_entry_views(pairs@),
                ext_view,
                cats_view,
                text_view,
                rtags_view,
                db_triples,
            ),
            forall|m: int|
                0 <= m < cur@.len() ==> from_db_in_ext(
                    (#[trigger] cur@[m]).deep_view(),
                    db_entries,
                    ext_view,
                ) && search_filters_pass(
                    (#[trigger] cur@[m]).deep_view(),
                    cats_view,
                    text_view,
                    rtags_view,
                    db_triples,
                ),
            forall|m: int|
                0 <= m < pairs@.len() ==> from_db_in_ext(
                    (#[trigger] pairs@[m]).0.deep_view(),
                    db_entries,
                    ext_view,
                ) && search_filters_pass(
                    (#[trigger] pairs@[m]).0.deep_view(),
                    cats_view,
                    text_view,
                    rtags_view,
                    db_triples,
                ),
            crate::sort::pair_keys_wf(pairs@),
            forall|m: int|
                0 <= m < pairs@.len() ==> (#[trigger] pairs@[m]).1 == rating_of(
                    req.entry_ratings.deep_view(),
                    pairs@[m].0.deep_view().id,
                ),
            forall|k2: int|
                0 <= k2 < req.entry_ratings@.len() ==> (#[trigger] req.entry_ratings@[k2]).avg.wf(),
        decreases cur@.len(),
    {
        let ghost cur_pre2 = cur.deep_view();
        let ghost pairs_pre2 = pair_entry_views(pairs@);
        let e = cur.remove(0);
        let ghost moved_view = e.deep_view();
        let key = rating_of_exec(&req.entry_ratings, &e.id);
        proof {
            assert forall|k2: int| 0 <= k2 < req.entry_ratings.deep_view().len() implies (
            #[trigger] req.entry_ratings.deep_view()[k2]).avg.wf() by {
                assert(req.entry_ratings.deep_view()[k2] == req.entry_ratings@[k2]@);
            }
            lemma_rating_of_wf(req.entry_ratings.deep_view(), e@.id);
        }
        pairs.push((e, key));
        proof {
            assert(moved_view == cur_pre2[0]);
            assert forall|kk: int|
                0 <= kk < db_entries.len() && matches_search_in(
                    #[trigger] db_entries[kk],
                    ext_view,
                    cats_view,
                    text_view,
                    rtags_view,
                    db_triples,
                ) implies cur.deep_view().contains(db_entries[kk]) || pair_entry_views(
                pairs@,
            ).contains(db_entries[kk]) by {
                if cur_pre2.contains(db_entries[kk]) {
                    let j = choose|j: int|
                        0 <= j < cur_pre2.len() && (#[trigger] cur_pre2[j]) == db_entries[kk];
                    if j == 0 {
                        assert(pair_entry_views(pairs@).last() == moved_view);
                    } else {
                        assert(cur.deep_view()[j - 1] == cur_pre2[j]);
                    }
                } else {
                    assert(pairs_pre2.contains(db_entries[kk]));
                    let j = choose|j: int|
                        0 <= j < pairs_pre2.len() && (#[trigger] pairs_pre2[j]) == db_entries[kk];
                    assert(pair_entry_views(pairs@)[j] == pairs_pre2[j]);
                }
            }
            assert(matches_split_held(
                db_entries,
                cur.deep_view(),
                pair_entry_views(pairs@),
                ext_view,
                cats_view,
                text_view,
                rtags_view,
                db_triples,
            ));
        }
    }
    proof {
        assert forall|kk: int|
            0 <= kk < db_entries.len() && matches_search_in(
                #[trigger] db_entries[kk],
                ext_view,
                cats_view,
                text_view,
                rtags_view,
                db_triples,
            ) implies pair_entry_views(pairs@).contains(db_entries[kk]) by {
            assert(cur.deep_view().len() == 0);
        }
        assert(matches_all_held(
            db_entries,
            pair_entry_views(pairs@),
            ext_view,
            cats_view,
            text_view,
            rtags_view,
            db_triples,
        ));
    }
    let ghost pairs_pre = pairs@;
    proof {
        assert(matches_all_held(
            db_entries,
            pair_entry_views(pairs_pre),
            ext_view,
            cats_view,
            text_view,
            rtags_view,
            db_triples,
        ));
    }
    crate::sort::stable_sort_pairs(&mut pairs);
    proof {
        let perm = choose|p: Seq<int>| crate::sort::stable_sorted_pairs(p, pairs_pre, pairs@);
        assert forall|m: int| 0 <= m < pairs@.len() implies from_db_in_ext(
            (#[trigger] pairs@[m]).0.deep_view(),
            db_entries,
            ext_view,
        ) && search_filters_pass(
            (#[trigger] pairs@[m]).0.deep_view(),
            cats_view,
            text_view,
            rtags_view,
            db_triples,
        ) && (#[trigger] pairs@[m]).1 == rating_of(
            req.entry_ratings.deep_view(),
            pairs@[m].0.deep_view().id,
        ) by {
            assert(pairs@[m] == pairs_pre[perm[m]]);
        }
        assert forall|kk: int|
            0 <= kk < db_entries.len() && matches_search_in(
                #[trigger] db_entries[kk],
                ext_view,
                cats_view,
                text_view,
                rtags_view,
                db_triples,
            ) implies pair_entry_views(pairs@).contains(db_entries[kk]) by {
            assert(pair_entry_views(pairs_pre).contains(db_entries[kk]));
            let j = choose|j: int|
                0 <= j < pair_entry_views(pairs_pre).len() && (#[trigger] pair_entry_views(
                    pairs_pre,
                )[j]) == db_entries[kk];
            crate::sort::lemma_perm_preimage(perm, pairs_pre.len() as int, j);
            let i2 = choose|i2: int|
                0 <= i2 < pairs_pre.len() && (#[trigger] perm[i2]) == j;
            assert(pairs@[i2] == pairs_pre[j]);
            assert(pair_entry_views(pairs@)[i2] == db_entries[kk]);
        }
        assert(matches_all_held(
            db_entries,
            pair_entry_views(pairs@),
            ext_view,
            cats_view,
            text_view,
            rtags_view,
            db_triples,
        ));
    }
    // The visible results: inside the original box, in rating order.
    let mut visible: Vec<String> = Vec::new();
    let mut v: usize = 0;
    while v < pairs.len()
        invariant
            v <= pairs.len(),
            forall|m: int|
                0 <= m < pairs@.len() ==> from_db_in_ext(
                    (#[trigger] pairs@[m]).0.deep_view(),
                    db_entries,
                    ext_view,
                ) && search_filters_pass(
                    (#[trigger] pairs@[m]).0.deep_view(),
                    cats_view,
                    text_view,
                    rtags_view,
                    db_triples,
                ),
            forall|m: int|
                0 <= m < pairs@.len() ==> (#[trigger] pairs@[m]).1 == rating_of(
                    req.entry_ratings.deep_view(),
                    pairs@[m].0.deep_view().id,
                ),
            crate::sort::sorted_pairs(pairs@),
            ids_from_box(visible.deep_view(), db_entries, req.bbox@),
            ids_from_box(visible.deep_view(), db_entries, ext_view),
            ids_sorted_by_rating(visible.deep_view(), req.entry_ratings.deep_view()),
            ids_pass_filters(
                visible.deep_view(),
                db_entries,
                cats_view,
                text_view,
                rtags_view,
                db_triples,
            ),
            matches_all_held(
                db_entries,
                pair_entry_views(pairs@),
                ext_view,
                cats_view,
                text_view,
                rtags_view,
                db_triples,
            ),
            forall|m: int|
                0 <= m < v as int && crate::filter::entry_in_bbox(
                    (#[trigger] pairs@[m]).0.deep_view(),
                    req.bbox@,
                ) ==> visible.deep_view().contains(pairs@[m].0.deep_view().id),
            forall|a: int, m: int|
                0 <= a < visible.deep_view().len() && v as int <= m < pairs@.len()
                    ==> rating_of(
                    req.entry_ratings.deep_view(),
                    #[trigger] visible.deep_view()[a],
                ).ge(#[trigger] pairs@[m].1),
        decreases pairs.len() - v,
    {
        if crate::filter::InBBox::in_bbox(&pairs[v].0, &req.bbox) {
            let ghost ev = pairs@[v as int].0.deep_view();
            let ghost vis_pre = visible.deep_view();
            visible.push(pairs[v].0.id.clone());
            proof {
                let lkp = req.entry_ratings.deep_view();
                assert(crate::filter::entry_in_bbox(ev, req.bbox@));
                assert(from_db_in_ext(ev, db_entries, ext_view));
                assert(rating_of(lkp, ev.id) == pairs@[v as int].1);
                assert(ids_sorted_by_rating(visible.deep_view(), lkp)) by {
                    assert forall|i2: int, j2: int|
                        0 <= i2 < j2 < visible.deep_view().len() implies rating_of(
                        lkp,
                        #[trigger] visible.deep_view()[i2],
                    ).ge(rating_of(lkp, #[trigger] visible.deep_view()[j2])) by {
                        assert(visible.deep_view()[i2] == vis_pre[i2]);
                        if j2 < vis_pre.len() {
                            assert(visible.deep_view()[j2] == vis_pre[j2]);
                            assert(ids_sorted_by_rating(vis_pre, lkp));
                        } else {
                            assert(visible.deep_view()[j2] == ev.id);
                            assert(rating_of(lkp, vis_pre[i2]).ge(pairs@[v as int].1));
                        }
                    }
                }
                assert forall|a: int, m: int|
                    0 <= a < visible.deep_view().len() && v as int + 1 <= m < pairs@.len()
                        implies rating_of(lkp, #[trigger] visible.deep_view()[a]).ge(
                    #[trigger] pairs@[m].1) by {
                    if a < vis_pre.len() {
                        assert(visible.deep_view()[a] == vis_pre[a]);
                        assert(rating_of(lkp, vis_pre[a]).ge(pairs@[m].1));
                    } else {
                        assert(visible.deep_view()[a] == ev.id);
                        assert(pairs@[v as int].1.key_le(pairs@[m].1));
                    }
                }
                assert(ids_from_box(visible.deep_view(), db_entries, req.bbox@)) by {
                    assert forall|m: int| 0 <= m < visible.deep_view().len() implies exists|
                        e: EntryView,
                    |
                        db_entries.contains(e) && e.id == #[trigger] visible.deep_view()[m]
                            && crate::filter::entry_in_bbox(e, req.bbox@) by {
                        if m < vis_pre.len() {
                            assert(visible.deep_view()[m] == vis_pre[m]);
                            assert(ids_from_box(vis_pre, db_entries, req.bbox@));
                        } else {
                            assert(visible.deep_view()[m] == ev.id);
                            assert(db_entries.contains(ev) && ev.id == visible.deep_view()[m]
                                && crate::filter::entry_in_bbox(ev, req.bbox@));
                        }
                    }
                }
                assert(ids_pass_filters(
                    visible.deep_view(),
                    db_entries,
                    cats_view,
                    text_view,
                    rtags_view,
                    db_triples,
                )) by {
                    assert forall|m: int| 0 <= m < visible.deep_view().len() implies exists|
                        e: EntryView,
                    |
                        db_entries.contains(e) && e.id == #[trigger] visible.deep_view()[m]
                            && search_filters_pass(e, cats_view, text_view, rtags_view, db_triples)
                        by {
                        if m < vis_pre.len() {
                            assert(visible.deep_view()[m] == vis_pre[m]);
                            assert(ids_pass_filters(
                                vis_pre,
                                db_entries,
                                cats_view,
                                text_view,
                                rtags_view,
                                db_triples,
                            ));
                        } else {
                            assert(visible.deep_view()[m] == ev.id);
                            assert(db_entries.contains(ev) && ev.id == visible.deep_view()[m]
                                && search_filters_pass(
                                ev,
                                cats_view,
                                text_view,
                                rtags_view,
                                db_triples,
                            ));
                        }
                    }
                }
                assert(ids_from_box(visible.deep_view(), db_entries, ext_view)) by {
                    assert forall|m: int| 0 <= m < visible.deep_view().len() implies exists|
                        e: EntryView,
                    |
                        db_entries.contains(e) && e.id == #[trigger] visible.deep_view()[m]
                            && crate::filter::entry_in_bbox(e, ext_view) by {
                        if m < vis_pre.len() {
                            assert(visible.deep_view()[m] == vis_pre[m]);
                            assert(ids_from_box(vis_pre, db_entries, ext_view));
                        } else {
                            assert(visible.deep_view()[m] == ev.id);
                            assert(db_entries.contains(ev) && ev.id == visible.deep_view()[m]
                                && crate::filter::entry_in_bbox(ev, ext_view));
                        }
                    }
                }
                assert forall|m: int|
                    0 <= m < v as int + 1 && crate::filter::entry_in_bbox(
                        (#[trigger] pairs@[m]).0.deep_view(),
                        req.bbox@,
                    ) implies visible.deep_view().contains(pairs@[m].0.deep_view().id) by {
                    if m < v as int {
                        let j = choose|j: int|
                            0 <= j < vis_pre.len() && (#[trigger] vis_pre[j]) == pairs@[
                            m].0.deep_view().id;
                        assert(visible.deep_view()[j] == pairs@[m].0.deep_view().id);
                    } else {
                        assert(visible.deep_view().last() == ev.id);
                    }
                }
            }
        } else {
            proof {
                assert(!crate::filter::entry_in_bbox(
                    pairs@[v as int].0.deep_view(),
                    req.bbox@,
                ));
            }
        }
        v = v + 1;
    }
    proof {
        assert forall|kk: int|
            0 <= kk < db_entries.len() && matches_search_in(
                #[trigger] db_entries[kk],
                extended_bbox(req.bbox@),
                cats_view,
                text_view,
                rtags_view,
                db_triples,
            ) && crate::filter::entry_in_bbox(db_entries[kk], req.bbox@)
            implies visible.deep_view().contains(db_entries[kk].id) by {
            assert(matches_search_in(
                db_entries[kk],
                ext_view,
                cats_view,
                text_view,
                rtags_view,
                db_triples,
            ));
            assert(pair_entry_views(pairs@).contains(db_entries[kk]));
            let j = choose|j: int|
                0 <= j < pair_entry_views(pairs@).len() && (#[trigger] pair_entry_views(pairs@)[
                j]) == db_entries[kk];
            assert(pairs@[j].0.deep_view() == db_entries[kk]);
            assert(visible.deep_view().contains(pairs@[j].0.deep_view().id));
        }
        assert(visible_complete(
            db_entries,
            visible.deep_view(),
            req.bbox@,
            cats_view,
            text_view,
            rtags_view,
            db_triples,
        ));
    }
    // The near-miss results: not visible, at most the fixed number,
    // still in rating order.
    let mut invisible: Vec<String> = Vec::new();
    let mut w: usize = 0;
    while w < pairs.len()
        invariant
            w <= pairs.len(),
            invisible@.len() <= MAX_INVISIBLE_RESULTS as int,
            forall|m: int|
                0 <= m < pairs@.len() ==> from_db_in_ext(
                    (#[trigger] pairs@[m]).0.deep_view(),
                    db_entries,
                    ext_view,
                ) && search_filters_pass(
                    (#[trigger] pairs@[m]).0.deep_view(),
                    cats_view,
                    text_view,
                    rtags_view,
                    db_triples,
                ),
            forall|m: int|
                0 <= m < pairs@.len() ==> (#[trigger] pairs@[m]).1 == rating_of(
                    req.entry_ratings.deep_view(),
                    pairs@[m].0.deep_view().id,
                ),
            crate::sort::sorted_pairs(pairs@),
            ids_from_box(invisible.deep_view(), db_entries, ext_view),
            id_seqs_disjoint(visible.deep_view(), invisible.deep_view()),
            ids_sorted_by_rating(invisible.deep_view(), req.entry_ratings.deep_view()),
            ids_pass_filters(
                invisible.deep_view(),
                db_entries,
                cats_view,
                text_view,
                rtags_view,
                db_triples,
            ),
            visible_complete(
                db_entries,
                visible.deep_view(),
                req.bbox@,
                cats_view,
                text_view,
                rtags_view,
                db_triples,
            ),
            matches_all_held(
                db_entries,
                pair_entry_views(pairs@),
                ext_view,
                cats_view,
                text_view,
                rtags_view,
                db_triples,
            ),
            forall|m: int|
                0 <= m < w as int && !visible.deep_view().contains(
                    (#[trigger] pairs@[m]).0.deep_view().id,
                ) ==> invisible.deep_view().contains(pairs@[m].0.deep_view().id) || (
                invisible@.len() == MAX_INVISIBLE_RESULTS as int && forall|a: int|
                    0 <= a < invisible.deep_view().len() ==> rating_of(
                        req.entry_ratings.deep_view(),
                        #[trigger] invisible.deep_view()[a],
                    ).ge(pairs@[m].1)),
            forall|a: int, m: int|
                0 <= a < invisible.deep_view().len() && w as int <= m < pairs@.len()
                    ==> rating_of(
                    req.entry_ratings.deep_view(),
                    #[trigger] invisible.deep_view()[a],
                ).ge(#[trigger] pairs@[m].1),
        decreases pairs.len() - w,
    {
        if invisible.len() < MAX_INVISIBLE_RESULTS {
            if !contains_string(&visible, &pairs[w].0.id) {
                let ghost ev = pairs@[w as int].0.deep_view();
                let ghost inv_pre = invisible.deep_view();
                invisible.push(pairs[w].0.id.clone());
                proof {
                    let lkp = req.entry_ratings.deep_view();
                    assert(from_db_in_ext(ev, db_entries, ext_view));
                    assert(rating_of(lkp, ev.id) == pairs@[w as int].1);
                    assert(ids_sorted_by_rating(invisible.deep_view(), lkp)) by {
                        assert forall|i2: int, j2: int|
                            0 <= i2 < j2 < invisible.deep_view().len() implies rating_of(
                            lkp,
                            #[trigger] invisible.deep_view()[i2],
                        ).ge(rating_of(lkp, #[trigger] invisible.deep_view()[j2])) by {
                            assert(invisible.deep_view()[i2] == inv_pre[i2]);
                            if j2 < inv_pre.len() {
                                assert(invisible.deep_view()[j2] == inv_pre[j2]);
                                assert(ids_sorted_by_rating(inv_pre, lkp));
                            } else {
                                assert(invisible.deep_view()[j2] == ev.id);
                                assert(rating_of(lkp, inv_pre[i2]).ge(pairs@[w as int].1));
                            }
                        }
                    }
                    assert forall|a: int, m: int|
                        0 <= a < invisible.deep_view().len() && w as int + 1 <= m < pairs@.len()
                            implies rating_of(lkp, #[trigger] invisible.deep_view()[a]).ge(
                        #[trigger] pairs@[m].1) by {
                        if a < inv_pre.len() {
                            assert(invisible.deep_view()[a] == inv_pre[a]);
                            assert(rating_of(lkp, inv_pre[a]).ge(pairs@[m].1));
                        } else {
                            assert(invisible.deep_view()[a] == ev.id);
                            assert(pairs@[w as int].1.key_le(pairs@[m].1));
                        }
                    }
                    assert(ids_from_box(invisible.deep_view(), db_entries, ext_view)) by {
                        assert forall|m: int| 0 <= m < invisible.deep_view().len() implies exists|
                            e: EntryView,
                        |
                            db_entries.contains(e) && e.id == #[trigger] invisible.deep_view()[m]
                                && crate::filter::entry_in_bbox(e, ext_view) by {
                            if m < inv_pre.len() {
                                assert(invisible.deep_view()[m] == inv_pre[m]);
                                assert(ids_from_box(inv_pre, db_entries, ext_view));
                            } else {
                                assert(invisible.deep_view()[m] == ev.id);
                                assert(db_entries.contains(ev) && ev.id == invisible.deep_view()[m]
                                    && crate::filter::entry_in_bbox(ev, ext_view));
                            }
                        }
                    }
                    assert(ids_pass_filters(
                        invisible.deep_view(),
                        db_entries,
                        cats_view,
                        text_view,
                        rtags_view,
                        db_triples,
                    )) by {
                        assert forall|m: int| 0 <= m < invisible.deep_view().len() implies exists|
                            e: EntryView,
                        |
                            db_entries.contains(e) && e.id == #[trigger] invisible.deep_view()[m]
                                && search_filters_pass(
                                e,
                                cats_view,
                                text_view,
                                rtags_view,
                                db_triples,
                            ) by {
                            if m < inv_pre.len() {
                                assert(invisible.deep_view()[m] == inv_pre[m]);
                                assert(ids_pass_filters(
                                    inv_pre,
                                    db_entries,
                                    cats_view,
                                    text_view,
                                    rtags_view,
                                    db_triples,
                                ));
                            } else {
                                assert(invisible.deep_view()[m] == ev.id);
                                assert(db_entries.contains(ev) && ev.id
                                    == invisible.deep_view()[m] && search_filters_pass(
                                    ev,
                                    cats_view,
                                    text_view,
                                    rtags_view,
                                    db_triples,
                                ));
                            }
                        }
                    }
                    assert(id_seqs_disjoint(visible.deep_view(), invisible.deep_view())) by {
                        assert forall|m: int, m2: int|
                            0 <= m < visible.deep_view().len() && 0 <= m2
                                < invisible.deep_view().len() implies (
                        #[trigger] visible.deep_view()[m]) != (
                        #[trigger] invisible.deep_view()[m2]) by {
                            if m2 < inv_pre.len() {
                                assert(invisible.deep_view()[m2] == inv_pre[m2]);
                                assert(id_seqs_disjoint(visible.deep_view(), inv_pre));
                            } else {
                                assert(invisible.deep_view()[m2] == ev.id);
                                assert(!visible.deep_view().contains(ev.id));
                            }
                        }
                    }
                    assert forall|m: int|
                        0 <= m < w as int + 1 && !visible.deep_view().contains(
                            (#[trigger] pairs@[m]).0.deep_view().id,
                        ) implies invisible.deep_view().contains(pairs@[m].0.deep_view().id) || (
                    invisible@.len() == MAX_INVISIBLE_RESULTS as int && forall|a: int|
                        0 <= a < invisible.deep_view().len() ==> rating_of(
                            lkp,
                            #[trigger] invisible.deep_view()[a],
                        ).ge(pairs@[m].1)) by {
                        if m < w as int {
                            assert(inv_pre.len() < MAX_INVISIBLE_RESULTS as int);
                            assert(inv_pre.contains(pairs@[m].0.deep_view().id));
                            let j = choose|j: int|
                                0 <= j < inv_pre.len() && (#[trigger] inv_pre[j]) == pairs@[
                                m].0.deep_view().id;
                            assert(invisible.deep_view()[j] == pairs@[m].0.deep_view().id);
                        } else {
                            assert(invisible.deep_view().last() == ev.id);
                        }
                    }
                }
            } else {
                proof {
                    assert(visible.deep_view().contains(pairs@[w as int].0.deep_view().id));
                }
            }
        } else {
            proof {
                assert(invisible@.len() == MAX_INVISIBLE_RESULTS as int);
                assert forall|a: int| 0 <= a < invisible.deep_view().len() implies rating_of(
                    req.entry_ratings.deep_view(),
                    #[trigger] invisible.deep_view()[a],
                ).ge(pairs@[w as int].1) by {}
            }
        }
        w = w + 1;
    }
    proof {
        let lkp = req.entry_ratings.deep_view();
        assert forall|kk: int|
            0 <= kk < db_entries.len() && matches_search_in(
                #[trigger] db_entries[kk],
                extended_bbox(req.bbox@),
                cats_view,
                text_view,
                rtags_view,
                db_triples,
            ) && !visible.deep_view().contains(db_entries[kk].id)
            implies (invisible.deep_view().contains(db_entries[kk].id) || (invisible@.len()
                == MAX_INVISIBLE_RESULTS as int && forall|a: int|
                0 <= a < invisible.deep_view().len() ==> rating_of(
                    lkp,
                    #[trigger] invisible.deep_view()[a],
                ).ge(rating_of(lkp, db_entries[kk].id)))) by {
            assert(matches_search_in(
                db_entries[kk],
                ext_view,
                cats_view,
                text_view,
                rtags_view,
                db_triples,
            ));
            assert(pair_entry_views(pairs@).contains(db_entries[kk]));
            let j = choose|j: int|
                0 <= j < pair_entry_views(pairs@).len() && (#[trigger] pair_entry_views(pairs@)[
                j]) == db_entries[kk];
            assert(pairs@[j].0.deep_view() == db_entries[kk]);
            assert(pairs@[j].1 == rating_of(lkp, db_entries[kk].id));
            if !invisible.deep_view().contains(db_entries[kk].id) {
                assert(invisible@.len() == MAX_INVISIBLE_RESULTS as int);
                assert forall|a: int| 0 <= a < invisible.deep_view().len() implies rating_of(
                    lkp,
                    #[trigger] invisible.deep_view()[a],
                ).ge(rating_of(lkp, db_entries[kk].id)) by {
                    assert(rating_of(lkp, invisible.deep_view()[a]).ge(pairs@[j].1));
                }
            }
        }
        assert(invisible_covers(
            db_entries,
            visible.deep_view(),
            invisible.deep_view(),
            lkp,
            req.bbox@,
            cats_view,
            text_view,
            rtags_view,
            db_triples,
        ));
    }
    Ok((visible, invisible))
}

/// A looked-up average is well-formed whenever every lookup row is.
proof fn lemma_rating_of_wf(lookup: Seq<EntryRatingView>, id: Seq<char>)
    requires
        forall|k: int| 0 <= k < lookup.len() ==> (#[trigger] lookup[k]).avg.wf(),
    ensures
        rating_of(lookup, id).wf(),
    decreases lookup.len(),
{
    if lookup.len() > 0 && lookup.first().entry_id != id {
        assert(forall|k: int|
            0 <= k < lookup.drop_first().len() ==> (#[trigger] lookup.drop_first()[k]).avg.wf());
        lemma_rating_of_wf(lookup.drop_first(), id);
    }
}

} // verus!
