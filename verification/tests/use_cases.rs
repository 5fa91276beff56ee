use ofdb::db::Db;
use ofdb::entities::RatingContext;
use ofdb::error::{Error, ParameterError, RepoError};
use ofdb::geo::{Coordinate, Degrees};
use ofdb::mockdb::MockDb;
use ofdb::ratings::AvgRating;
use ofdb::usecase::{create_new_entry, create_new_user, delete_user, email_addresses_to_notify,
    get_bbox_subscriptions, get_comment_ids_for_rating_id, get_comments_by_rating_ids,
    get_entries, get_ratings, get_user_id_for_rating_id, login, rate_entry, search,
    subscribe_to_bbox, unsubscribe_all_bboxes, update_entry, EntryRating, Login, NewEntry,
    NewUser, RateEntry, SearchRequest, UpdateEntry};

fn deg(x: f64) -> Degrees {
    if x.is_finite() {
        Degrees::Finite((x * 1_000_000.0).round() as i64)
    } else {
        Degrees::NonFinite
    }
}

fn new_entry_data(title: &str, lat: f64, lng: f64, tags: Vec<&str>) -> NewEntry {
    NewEntry {
        title: title.into(),
        description: "a place".into(),
        lat: deg(lat),
        lng: deg(lng),
        street: None,
        zip: None,
        city: None,
        country: None,
        email: None,
        telephone: None,
        homepage: None,
        categories: vec!["c1".into()],
        tags: tags.into_iter().map(|t| t.to_string()).collect(),
        license: "CC0-1.0".into(),
    }
}

#[test]
fn created_entries_get_fresh_ids_and_version_zero() {
    let mut db = MockDb::new();
    let id = create_new_entry(&mut db, new_entry_data("solar cafe", 1.0, 2.0, vec![])).unwrap();
    assert_eq!(id.len(), 32);
    let e = db.get_entry(&id).unwrap();
    assert_eq!(e.version, 0);
    assert_eq!(e.title, "solar cafe");
    assert_eq!(e.license.as_deref(), Some("CC0-1.0"));
}

#[test]
fn creating_an_entry_rejects_unknown_licenses() {
    let mut db = MockDb::new();
    let mut data = new_entry_data("x", 0.0, 0.0, vec![]);
    data.license = "all-rights-reserved".into();
    assert_eq!(
        create_new_entry(&mut db, data).unwrap_err(),
        Error::Parameter(ParameterError::License)
    );
}

#[test]
fn creating_an_entry_rejects_bad_email() {
    let mut db = MockDb::new();
    let mut data = new_entry_data("x", 0.0, 0.0, vec![]);
    data.email = Some("not-an-address".into());
    assert_eq!(
        create_new_entry(&mut db, data).unwrap_err(),
        Error::Parameter(ParameterError::Email)
    );
}

fn update_data(id: &str, version: u64) -> UpdateEntry {
    UpdateEntry {
        id: id.into(),
        osm_node: None,
        version,
        title: "renamed".into(),
        description: "still a place".into(),
        lat: deg(1.0),
        lng: deg(2.0),
        street: None,
        zip: None,
        city: None,
        country: None,
        email: None,
        telephone: None,
        homepage: None,
        categories: vec![],
        tags: vec![],
    }
}

#[test]
fn update_with_wrong_version_is_a_version_conflict() {
    let mut db = MockDb::new();
    let id = create_new_entry(&mut db, new_entry_data("place", 1.0, 2.0, vec![])).unwrap();
    // Stored version is 0: anything but 1 conflicts.
    assert_eq!(
        update_entry(&mut db, update_data(&id, 0)).unwrap_err(),
        Error::Repo(RepoError::InvalidVersion)
    );
    assert_eq!(
        update_entry(&mut db, update_data(&id, 2)).unwrap_err(),
        Error::Repo(RepoError::InvalidVersion)
    );
    update_entry(&mut db, update_data(&id, 1)).unwrap();
    let stored = db.get_entry(&id).unwrap();
    assert_eq!(stored.version, 1);
    assert_eq!(stored.title, "renamed");
    // The license is carried forward from the stored record.
    assert_eq!(stored.license.as_deref(), Some("CC0-1.0"));
    // And now version 1 is stored, so repeating the same update conflicts.
    assert_eq!(
        update_entry(&mut db, update_data(&id, 1)).unwrap_err(),
        Error::Repo(RepoError::InvalidVersion)
    );
}

#[test]
fn update_of_a_missing_entry_is_not_found() {
    let mut db = MockDb::new();
    assert_eq!(
        update_entry(&mut db, update_data("nope", 1)).unwrap_err(),
        Error::Repo(RepoError::NotFound)
    );
}

#[test]
fn rating_an_entry_links_a_comment() {
    let mut db = MockDb::new();
    let id = create_new_entry(&mut db, new_entry_data("place", 1.0, 2.0, vec![])).unwrap();
    rate_entry(
        &mut db,
        RateEntry {
            entry: id.clone(),
            title: "great".into(),
            value: 2,
            context: RatingContext::Fairness,
            comment: "love it".into(),
            source: None,
            user: None,
        },
    )
    .unwrap();
    let ratings = db.all_ratings().unwrap();
    assert_eq!(ratings.len(), 1);
    assert_eq!(ratings[0].entry_id, id);
    let triples = db.all_triples().unwrap();
    let comment_ids = get_comment_ids_for_rating_id(&triples, &ratings[0].id);
    assert_eq!(comment_ids.len(), 1);
    let by_rating = get_comments_by_rating_ids(&db, &vec![ratings[0].id.clone()]).unwrap();
    assert_eq!(by_rating[0].1.len(), 1);
    assert_eq!(by_rating[0].1[0].text, "love it");
    let fetched = get_ratings(&db, &vec![ratings[0].id.clone()]).unwrap();
    assert_eq!(fetched.len(), 1);
    assert_eq!(get_user_id_for_rating_id(&triples, &ratings[0].id), None);
}

#[test]
fn rating_rejects_empty_comments_and_out_of_range_values() {
    let mut db = MockDb::new();
    let id = create_new_entry(&mut db, new_entry_data("place", 1.0, 2.0, vec![])).unwrap();
    let base = RateEntry {
        entry: id.clone(),
        title: "t".into(),
        value: 1,
        context: RatingContext::Diversity,
        comment: "".into(),
        source: None,
        user: None,
    };
    assert_eq!(
        rate_entry(&mut db, base.clone()).unwrap_err(),
        Error::Parameter(ParameterError::EmptyComment)
    );
    let mut high = base.clone();
    high.comment = "ok".into();
    high.value = 3;
    assert_eq!(
        rate_entry(&mut db, high).unwrap_err(),
        Error::Parameter(ParameterError::RatingValue)
    );
    let mut low = base;
    low.comment = "ok".into();
    low.value = -2;
    assert_eq!(
        rate_entry(&mut db, low).unwrap_err(),
        Error::Parameter(ParameterError::RatingValue)
    );
}

#[test]
fn user_registration_and_login() {
    let mut db = MockDb::new();
    assert_eq!(
        create_new_user(
            &mut db,
            NewUser { username: "No Spaces".into(), password: "pw".into(), email: "a@b.c".into() }
        )
        .unwrap_err(),
        Error::Parameter(ParameterError::UserName)
    );
    assert_eq!(
        create_new_user(
            &mut db,
            NewUser { username: "ada".into(), password: "".into(), email: "a@b.c".into() }
        )
        .unwrap_err(),
        Error::Parameter(ParameterError::Password)
    );
    assert_eq!(
        create_new_user(
            &mut db,
            NewUser { username: "ada".into(), password: "pw1".into(), email: "nope".into() }
        )
        .unwrap_err(),
        Error::Parameter(ParameterError::Email)
    );
    create_new_user(
        &mut db,
        NewUser { username: "ada".into(), password: "pw1".into(), email: "a@b.c".into() },
    )
    .unwrap();
    assert_eq!(
        create_new_user(
            &mut db,
            NewUser { username: "ada".into(), password: "pw2".into(), email: "a@b.c".into() }
        )
        .unwrap_err(),
        Error::Parameter(ParameterError::UserExists)
    );
    // A wrong password is a credentials error; the right one still finds
    // the email unconfirmed.
    assert_eq!(
        login(&mut db, Login { username: "ada".into(), password: "wrong".into() }).unwrap_err(),
        Error::Parameter(ParameterError::Credentials)
    );
    assert_eq!(
        login(&mut db, Login { username: "ada".into(), password: "pw1".into() }).unwrap_err(),
        Error::Parameter(ParameterError::EmailNotConfirmed)
    );
    assert_eq!(
        login(&mut db, Login { username: "nobody".into(), password: "pw".into() }).unwrap_err(),
        Error::Parameter(ParameterError::Credentials)
    );
}

#[test]
fn deleting_someone_elses_account_is_forbidden() {
    let mut db = MockDb::new();
    assert_eq!(
        delete_user(&mut db, "me", "someone-else").unwrap_err(),
        Error::Parameter(ParameterError::Forbidden)
    );
    delete_user(&mut db, "me", "me").unwrap();
}

#[test]
fn one_subscription_per_user() {
    let mut db = MockDb::new();
    let sw_ne = vec![
        Coordinate { lat: deg(0.0), lng: deg(0.0) },
        Coordinate { lat: deg(10.0), lng: deg(10.0) },
    ];
    subscribe_to_bbox(&sw_ne, &"ada".to_string(), &mut db).unwrap();
    let other = vec![
        Coordinate { lat: deg(1.0), lng: deg(1.0) },
        Coordinate { lat: deg(2.0), lng: deg(2.0) },
    ];
    subscribe_to_bbox(&other, &"ada".to_string(), &mut db).unwrap();
    let subs = get_bbox_subscriptions("ada", &db).unwrap();
    assert_eq!(subs.len(), 1);
    assert_eq!(subs[0].south_west_lat, deg(1.0));
    unsubscribe_all_bboxes("ada", &mut db).unwrap();
    assert_eq!(get_bbox_subscriptions("ada", &db).unwrap().len(), 0);
}

#[test]
fn malformed_subscription_boxes_are_rejected() {
    let mut db = MockDb::new();
    let one = vec![Coordinate { lat: deg(0.0), lng: deg(0.0) }];
    assert_eq!(
        subscribe_to_bbox(&one, &"ada".to_string(), &mut db).unwrap_err(),
        Error::Parameter(ParameterError::Bbox)
    );
    let upside_down = vec![
        Coordinate { lat: deg(10.0), lng: deg(0.0) },
        Coordinate { lat: deg(0.0), lng: deg(10.0) },
    ];
    assert_eq!(
        subscribe_to_bbox(&upside_down, &"ada".to_string(), &mut db).unwrap_err(),
        Error::Parameter(ParameterError::Bbox)
    );
}

#[test]
fn subscribers_inside_the_box_are_notified() {
    let mut db = MockDb::new();
    create_new_user(
        &mut db,
        NewUser { username: "ada".into(), password: "pw1".into(), email: "ada@example.org".into() },
    )
    .unwrap();
    let users = db.all_users().unwrap();
    let sw_ne = vec![
        Coordinate { lat: deg(0.0), lng: deg(0.0) },
        Coordinate { lat: deg(10.0), lng: deg(10.0) },
    ];
    // The notification lookup resolves the subscribing key against user
    // ids, so subscribe under the user's id.
    subscribe_to_bbox(&sw_ne, &users[0].id, &mut db).unwrap();
    let inside = email_addresses_to_notify(&deg(5.0), &deg(5.0), &db).unwrap();
    assert_eq!(inside, vec!["ada@example.org"]);
    let outside = email_addresses_to_notify(&deg(50.0), &deg(5.0), &db).unwrap();
    assert_eq!(outside.len(), 0);
}

#[test]
fn entries_are_fetched_by_id() {
    let mut db = MockDb::new();
    let id1 = create_new_entry(&mut db, new_entry_data("one", 1.0, 1.0, vec![])).unwrap();
    let _id2 = create_new_entry(&mut db, new_entry_data("two", 2.0, 2.0, vec![])).unwrap();
    let found = get_entries(&db, &vec![id1.clone()]).unwrap();
    assert_eq!(found.len(), 1);
    assert_eq!(found[0].title, "one");
}

fn search_request(bbox: Vec<Coordinate>, text: &str) -> SearchRequest {
    SearchRequest {
        bbox,
        categories: None,
        text: text.into(),
        tags: vec![],
        entry_ratings: vec![],
    }
}

#[test]
fn search_splits_visible_and_invisible_results() {
    let mut db = MockDb::new();
    let inside = create_new_entry(&mut db, new_entry_data("inside", 5.0, 5.0, vec![])).unwrap();
    let near = create_new_entry(&mut db, new_entry_data("near", 10.005, 5.0, vec![])).unwrap();
    let _far = create_new_entry(&mut db, new_entry_data("far", 40.0, 40.0, vec![])).unwrap();
    let bbox = vec![
        Coordinate { lat: deg(0.0), lng: deg(0.0) },
        Coordinate { lat: deg(10.0), lng: deg(10.0) },
    ];
    let (visible, invisible) = search(&db, search_request(bbox, "")).unwrap();
    assert_eq!(visible, vec![inside.clone()]);
    assert_eq!(invisible, vec![near.clone()]);
    assert!(invisible.len() <= 5);
    assert!(!invisible.contains(&inside));
}

#[test]
fn search_filters_by_hashtags_and_text() {
    let mut db = MockDb::new();
    let solar =
        create_new_entry(&mut db, new_entry_data("solar roof", 5.0, 5.0, vec!["solar"])).unwrap();
    let _plain = create_new_entry(&mut db, new_entry_data("bakery", 5.0, 5.0, vec![])).unwrap();
    let bbox = vec![
        Coordinate { lat: deg(0.0), lng: deg(0.0) },
        Coordinate { lat: deg(10.0), lng: deg(10.0) },
    ];
    let (visible, _) = search(&db, search_request(bbox.clone(), "#solar")).unwrap();
    assert_eq!(visible, vec![solar.clone()]);
    let (by_text, _) = search(&db, search_request(bbox.clone(), "BAKERY")).unwrap();
    assert_eq!(by_text.len(), 1);
    let (none, _) = search(&db, search_request(bbox, "sushi")).unwrap();
    assert_eq!(none.len(), 0);
}

#[test]
fn a_filter_on_the_empty_category_set_matches_nothing() {
    let mut db = MockDb::new();
    let _e = create_new_entry(&mut db, new_entry_data("place", 5.0, 5.0, vec![])).unwrap();
    let bbox = vec![
        Coordinate { lat: deg(0.0), lng: deg(0.0) },
        Coordinate { lat: deg(10.0), lng: deg(10.0) },
    ];
    // No filter at all: the entry is found.
    let (no_filter, _) = search(&db, search_request(bbox.clone(), "")).unwrap();
    assert_eq!(no_filter.len(), 1);
    // A supplied but empty category list matches nothing.
    let mut req = search_request(bbox, "");
    req.categories = Some(vec![]);
    let (filtered, invisible) = search(&db, req).unwrap();
    assert_eq!(filtered.len(), 0);
    assert_eq!(invisible.len(), 0);
}

#[test]
fn updating_upserts_missing_tags() {
    let mut db = MockDb::new();
    let id = create_new_entry(&mut db, new_entry_data("p", 1.0, 1.0, vec!["solar"])).unwrap();
    assert_eq!(db.all_tags().unwrap().len(), 1);
    let mut up = update_data(&id, 1);
    up.tags = vec!["solar".into(), "diy".into()];
    update_entry(&mut db, up).unwrap();
    let tags = db.all_tags().unwrap();
    assert_eq!(tags.len(), 2);
    assert_eq!(tags[1].id, "diy");
}

#[test]
fn search_orders_by_average_rating() {
    let mut db = MockDb::new();
    let low = create_new_entry(&mut db, new_entry_data("low", 5.0, 5.0, vec![])).unwrap();
    let high = create_new_entry(&mut db, new_entry_data("high", 6.0, 6.0, vec![])).unwrap();
    let bbox = vec![
        Coordinate { lat: deg(0.0), lng: deg(0.0) },
        Coordinate { lat: deg(10.0), lng: deg(10.0) },
    ];
    let mut req = search_request(bbox, "");
    req.entry_ratings = vec![
        EntryRating { entry_id: low.clone(), avg: AvgRating { sum: -1, count: 1 } },
        EntryRating { entry_id: high.clone(), avg: AvgRating { sum: 2, count: 1 } },
    ];
    let (visible, _) = search(&db, req).unwrap();
    assert_eq!(visible, vec![high, low]);
}
