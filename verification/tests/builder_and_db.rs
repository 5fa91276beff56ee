use ofdb::builder::{EntryBuild, EntryBuilder};
use ofdb::db::Db;
use ofdb::entities::Entry;
use ofdb::error::{Error, ParameterError, RepoError};
use ofdb::geo::{extract_bbox, Degrees};
use ofdb::mockdb::MockDb;
use ofdb::usecase::{create_new_user, get_ratings_by_entry_ids, get_user, rate_entry, NewUser,
    RateEntry};
use ofdb::validate::{email, password, username, Validate};

#[test]
fn builder_sets_the_varying_fields() {
    let e: Entry = Entry::build()
        .id("e-1")
        .title("title")
        .description("desc")
        .lat(Degrees::Finite(1_000_000))
        .lng(Degrees::Finite(2_000_000))
        .categories(vec!["a", "b"])
        .finish();
    assert_eq!(e.id, "e-1");
    assert_eq!(e.title, "title");
    assert_eq!(e.description, "desc");
    assert_eq!(e.lat, Degrees::Finite(1_000_000));
    assert_eq!(e.lng, Degrees::Finite(2_000_000));
    assert_eq!(e.categories, vec!["a", "b"]);
    assert_eq!(e.version, 0);
    assert_eq!(e.license, None);
}

#[test]
fn default_entries_validate_only_with_a_license() {
    let mut e = Entry::default();
    assert_eq!(e.validate().unwrap_err(), ParameterError::License);
    e.license = Some("ODbL-1.0".into());
    e.validate().unwrap();
    e.email = Some("broken".into());
    assert_eq!(e.validate().unwrap_err(), ParameterError::Email);
}

#[test]
fn field_validation_rules() {
    username("ada1").unwrap();
    assert_eq!(username("").unwrap_err(), ParameterError::UserName);
    assert_eq!(username("Ada").unwrap_err(), ParameterError::UserName);
    password("secret").unwrap();
    assert_eq!(password("has space").unwrap_err(), ParameterError::Password);
    email("a@b.c").unwrap();
    assert_eq!(email("a@").unwrap_err(), ParameterError::Email);
    assert_eq!(email("@b").unwrap_err(), ParameterError::Email);
}

#[test]
fn ratings_are_grouped_by_entry_id() {
    let mut db = MockDb::new();
    let e = ofdb::usecase::create_new_entry(
        &mut db,
        ofdb::usecase::NewEntry {
            title: "p".into(),
            description: "d".into(),
            lat: Degrees::Finite(0),
            lng: Degrees::Finite(0),
            street: None,
            zip: None,
            city: None,
            country: None,
            email: None,
            telephone: None,
            homepage: None,
            categories: vec![],
            tags: vec![],
            license: "CC0-1.0".into(),
        },
    )
    .unwrap();
    rate_entry(
        &mut db,
        RateEntry {
            entry: e.clone(),
            title: "t".into(),
            value: 1,
            context: ofdb::entities::RatingContext::Humanity,
            comment: "c".into(),
            source: None,
            user: None,
        },
    )
    .unwrap();
    let grouped = get_ratings_by_entry_ids(&db, &vec![e.clone(), "other".into()]).unwrap();
    assert_eq!(grouped.len(), 2);
    assert_eq!(grouped[0].0, e);
    assert_eq!(grouped[0].1.len(), 1);
    assert_eq!(grouped[1].1.len(), 0);
}

#[test]
fn users_may_only_read_their_own_record() {
    let mut db = MockDb::new();
    create_new_user(
        &mut db,
        NewUser { username: "ada".into(), password: "pw1".into(), email: "a@b.c".into() },
    )
    .unwrap();
    create_new_user(
        &mut db,
        NewUser { username: "bob".into(), password: "pw2".into(), email: "b@b.c".into() },
    )
    .unwrap();
    let users = db.all_users().unwrap();
    let ada_id = users[0].id.clone();
    let (id, mail) = get_user(&mut db, &ada_id, "ada").unwrap();
    assert_eq!(id, ada_id);
    assert_eq!(mail, "a@b.c");
    assert_eq!(
        get_user(&mut db, &ada_id, "bob").unwrap_err(),
        Error::Parameter(ParameterError::Forbidden)
    );
    assert_eq!(
        get_user(&mut db, "unknown-login", "ada").unwrap_err(),
        Error::Repo(RepoError::NotFound)
    );
}

#[test]
fn decimal_fields_parse_in_all_shapes() {
    let v = extract_bbox("1.,.5,-2,-0.000001").unwrap();
    assert_eq!(v[0].lat, Degrees::Finite(1_000_000));
    assert_eq!(v[0].lng, Degrees::Finite(500_000));
    assert_eq!(v[1].lat, Degrees::Finite(-2_000_000));
    assert_eq!(v[1].lng, Degrees::Finite(-1));
    // Digits past the sixth fraction place carry nothing.
    let w = extract_bbox("0.1234567,0,0,0").unwrap();
    assert_eq!(w[0].lat, Degrees::Finite(123_456));
    // A lone point or an oversized integer part carries no value.
    assert_eq!(extract_bbox(".,0,0,0").unwrap_err(), ParameterError::Bbox);
    assert_eq!(extract_bbox("12345678901,0,0,0").unwrap_err(), ParameterError::Bbox);
}

#[test]
fn builder_starts_from_the_default() {
    let b: EntryBuild = Entry::build();
    let e = b.finish();
    let d = Entry::default();
    assert_eq!(e.id, d.id);
    assert_eq!(e.created, d.created);
    assert_eq!(e.lat, d.lat);
}
