use ofdb::entities::{Entry, ObjectId, Rating, RatingContext, Relation, Triple};
use ofdb::geo::{Coordinate, Degrees};
use ofdb::ratings::{Rated, SortByAverageRating};
use ofdb::sort::SortByDistanceTo;

fn deg(x: f64) -> Degrees {
    if x.is_finite() {
        Degrees::Finite((x * 1_000_000.0).round() as i64)
    } else {
        Degrees::NonFinite
    }
}

fn new_entry(id: &str, lat: f64, lng: f64) -> Entry {
    Entry {
        id: id.into(),
        osm_node: None,
        created: 0,
        version: 0,
        title: "foo".into(),
        description: "bar".into(),
        lat: deg(lat),
        lng: deg(lng),
        street: None,
        zip: None,
        city: None,
        country: None,
        email: None,
        telephone: None,
        homepage: None,
        categories: vec![],
        tags: vec![],
        license: None,
    }
}

fn new_rating(id: &str, value: i8) -> Rating {
    Rating {
        id: id.into(),
        entry_id: "".into(),
        created: 0,
        title: "blubb".into(),
        value,
        context: RatingContext::Diversity,
        source: None,
    }
}

fn rated_with(entry: &str, rating: &str) -> Triple {
    Triple {
        subject: ObjectId::Entry(entry.into()),
        predicate: Relation::IsRatedWith,
        object: ObjectId::Rating(rating.into()),
    }
}

fn avg_value(e: &Entry, ratings: &Vec<Rating>, triples: &Vec<Triple>) -> f64 {
    let a = e.average_rating(ratings, triples);
    a.sum as f64 / a.count as f64
}

#[test]
fn test_average_rating() {
    let entry1 = new_entry("a", 0.0, 0.0);
    let entry2 = new_entry("b", 0.0, 0.0);
    let entry3 = new_entry("c", 0.0, 0.0);

    let ratings = vec![
        new_rating("1", 0),
        new_rating("2", 0),
        new_rating("3", 3),
        new_rating("4", 3),
        new_rating("5", -3),
        new_rating("6", 3),
    ];

    let triples = vec![
        rated_with("a", "1"),
        rated_with("a", "2"),
        rated_with("a", "3"),
        rated_with("a", "4"),
        rated_with("b", "5"),
        rated_with("b", "6"),
    ];

    assert_eq!(avg_value(&entry1, &ratings, &triples), 1.5);
    assert_eq!(avg_value(&entry2, &ratings, &triples), 0.0);
    assert_eq!(avg_value(&entry3, &ratings, &triples), 0.0);
}

#[test]
fn test_sort_by_avg_rating() {
    let mut entries = vec![
        new_entry("a", 0.0, 0.0),
        new_entry("b", 0.0, 0.0),
        new_entry("c", 0.0, 0.0),
        new_entry("d", 0.0, 0.0),
        new_entry("e", 0.0, 0.0),
    ];

    let ratings = vec![
        new_rating("1", 0),
        new_rating("2", 10),
        new_rating("3", 3),
        new_rating("4", -1),
        new_rating("5", 0),
    ];

    let triples = vec![
        rated_with("b", "1"),
        rated_with("b", "2"),
        rated_with("c", "3"),
        rated_with("d", "4"),
        rated_with("e", "5"),
    ];

    entries.sort_by_avg_rating(&ratings, &triples);

    assert_eq!(entries[0].id, "b");
    assert_eq!(entries[1].id, "c");
    assert!(entries[2].id == "a" || entries[2].id == "e");
    assert!(entries[3].id == "a" || entries[3].id == "e");
    assert_eq!(entries[4].id, "d");
}

#[test]
fn sort_by_avg_rating_is_stable_on_ties() {
    // Entries with equal averages keep their input order.
    let mut entries = vec![
        new_entry("x", 0.0, 0.0),
        new_entry("y", 0.0, 0.0),
        new_entry("z", 0.0, 0.0),
    ];
    let ratings = vec![new_rating("1", 2)];
    let triples = vec![rated_with("y", "1")];
    entries.sort_by_avg_rating(&ratings, &triples);
    assert_eq!(entries[0].id, "y");
    assert_eq!(entries[1].id, "x");
    assert_eq!(entries[2].id, "z");
}

#[test]
fn average_ignores_unlinked_ratings() {
    let entry = new_entry("a", 0.0, 0.0);
    let mut ratings = vec![new_rating("1", 2), new_rating("2", 1)];
    let triples = vec![rated_with("a", "1"), rated_with("a", "2")];
    let before = avg_value(&entry, &ratings, &triples);
    ratings.push(new_rating("unlinked", -1));
    let after = avg_value(&entry, &ratings, &triples);
    assert_eq!(before, 1.5);
    assert_eq!(after, 1.5);
}

#[test]
fn dangling_links_do_not_dilute_the_average() {
    // A triple pointing at a rating id with no rating record selects
    // nothing: the average is the mean of the selected records alone.
    let entry = new_entry("a", 0.0, 0.0);
    let ratings = vec![new_rating("x", 2)];
    let triples = vec![rated_with("a", "x"), rated_with("a", "y")];
    assert_eq!(avg_value(&entry, &ratings, &triples), 2.0);
}

#[test]
fn sort_by_distance() {
    let mut entries = vec![
        new_entry("a", 1.0, 0.0),
        new_entry("b", 0.0, 0.0),
        new_entry("c", 1.0, 1.0),
        new_entry("d", 0.0, 0.5),
        new_entry("e", -1.0, -1.0),
    ];
    let x = Coordinate { lat: deg(0.0), lng: deg(0.0) };
    entries.sort_by_distance_to(&x);
    assert_eq!(entries[0].id, "b");
    assert_eq!(entries[1].id, "d");
    assert_eq!(entries[2].id, "a");
    assert!(entries[3].id == "c" || entries[3].id == "e");
    assert!(entries[4].id == "c" || entries[4].id == "e");
}

#[test]
fn sort_with_invalid_coordinates() {
    let mut entries = vec![
        new_entry("a", 1.0, f64::NAN),
        new_entry("b", 1.0, f64::INFINITY),
        new_entry("c", 2.0, 0.0),
        new_entry("d", f64::NAN, f64::NAN),
        new_entry("e", 1.0, 0.0),
    ];
    let x = Coordinate { lat: deg(0.0), lng: deg(0.0) };
    entries.sort_by_distance_to(&x);
    assert_eq!(entries[0].id, "e");
    assert_eq!(entries[1].id, "c");

    let mut entries = vec![
        new_entry("a", 2.0, 0.0),
        new_entry("b", 0.0, 0.0),
        new_entry("c", 1.0, 0.0),
    ];

    let x = Coordinate { lat: deg(f64::NAN), lng: deg(0.0) };
    entries.sort_by_distance_to(&x);
    assert_eq!(entries[0].id, "a");
    assert_eq!(entries[1].id, "b");
    assert_eq!(entries[2].id, "c");
}
