use ofdb::entities::{parse_rating_context, parse_relation, rating_context_name, triple_id, Id,
    ObjectId, RatingContext, Relation, Triple};
use ofdb::error::ParameterError;
use ofdb::geo::{center, distance, extract_bbox, is_in_bbox, Bbox, Coordinate, Degrees, Distance};
use ofdb::messages::email_confirmation_email;
use ofdb::text::{extract_hash_tags, extract_ids, remove_hash_tags};

fn fin(micro: i64) -> Degrees {
    Degrees::Finite(micro)
}

#[test]
fn extract_ids_test() {
    assert_eq!(extract_ids("abc"), vec!["abc"]);
    assert_eq!(extract_ids("a,b,c"), vec!["a", "b", "c"]);
    assert_eq!(extract_ids("").len(), 0);
    assert_eq!(extract_ids("abc,,d"), vec!["abc", "d"]);
}

#[test]
fn hashtags_are_extracted_and_stripped() {
    assert_eq!(extract_hash_tags("great place #solar #diy"), vec!["solar", "diy"]);
    assert_eq!(remove_hash_tags("great place #solar #diy"), "great place");
}

#[test]
fn hashtags_with_hyphens() {
    assert_eq!(extract_hash_tags("#zero-waste shop"), vec!["zero-waste"]);
    assert_eq!(extract_hash_tags("#a--b"), vec!["a"]);
    assert_eq!(extract_hash_tags("nothing here"), Vec::<String>::new());
    assert_eq!(remove_hash_tags("  #solar  "), "");
}

#[test]
fn hashtag_word_characters_are_unicode() {
    assert_eq!(extract_hash_tags("ein #café in köln"), vec!["café"]);
    assert_eq!(remove_hash_tags("ein #café in köln"), "ein in köln");
    assert_eq!(extract_hash_tags("#日本 #a_b"), vec!["日本", "a_b"]);
}

#[test]
fn bbox_string_round_trips() {
    let v = extract_bbox("10.5,-3.25,20,40.000001").unwrap();
    assert_eq!(v.len(), 2);
    assert_eq!(v[0].lat, fin(10_500_000));
    assert_eq!(v[0].lng, fin(-3_250_000));
    assert_eq!(v[1].lat, fin(20_000_000));
    assert_eq!(v[1].lng, fin(40_000_001));
}

#[test]
fn bbox_string_wrong_cardinality_fails() {
    assert_eq!(extract_bbox("1,2,3").unwrap_err(), ParameterError::Bbox);
    assert_eq!(extract_bbox("1,2,3,4,5").unwrap_err(), ParameterError::Bbox);
    assert_eq!(extract_bbox("").unwrap_err(), ParameterError::Bbox);
}

#[test]
fn bbox_string_non_numeric_fails() {
    assert_eq!(extract_bbox("a,b,c,d").unwrap_err(), ParameterError::Bbox);
    assert_eq!(extract_bbox("1.0,2.0,3.0,x").unwrap_err(), ParameterError::Bbox);
    assert_eq!(extract_bbox("1..0,2,3,4").unwrap_err(), ParameterError::Bbox);
}

#[test]
fn containment_rejects_non_finite_values() {
    let bbox = Bbox {
        south_west: Coordinate { lat: fin(0), lng: fin(0) },
        north_east: Coordinate { lat: fin(2_000_000), lng: fin(2_000_000) },
    };
    assert!(is_in_bbox(&fin(1_000_000), &fin(1_000_000), &bbox));
    assert!(!is_in_bbox(&fin(3_000_000), &fin(1_000_000), &bbox));
    assert!(!is_in_bbox(&Degrees::NonFinite, &fin(1_000_000), &bbox));
    let broken = Bbox {
        south_west: Coordinate { lat: Degrees::NonFinite, lng: fin(0) },
        north_east: Coordinate { lat: fin(2_000_000), lng: fin(2_000_000) },
    };
    assert!(!is_in_bbox(&fin(1_000_000), &fin(1_000_000), &broken));
}

#[test]
fn center_is_the_midpoint() {
    let sw = Coordinate { lat: fin(0), lng: fin(0) };
    let ne = Coordinate { lat: fin(2_000_000), lng: fin(4_000_000) };
    let c = center(&sw, &ne);
    assert_eq!(c.lat, fin(1_000_000));
    assert_eq!(c.lng, fin(2_000_000));
}

#[test]
fn distance_orders_positions() {
    let a = Coordinate { lat: fin(0), lng: fin(0) };
    let b = Coordinate { lat: fin(3), lng: fin(4) };
    assert_eq!(distance(&a, &b), Distance::Finite(25));
    let nf = Coordinate { lat: Degrees::NonFinite, lng: fin(0) };
    assert_eq!(distance(&a, &nf), Distance::NonFinite);
}

#[test]
fn triple_ids_are_deterministic() {
    let t = Triple {
        subject: ObjectId::Entry("e1".into()),
        predicate: Relation::IsRatedWith,
        object: ObjectId::Rating("r1".into()),
    };
    assert_eq!(triple_id(&t), "entry-e1-is_rated_with-rating-r1");
    assert_eq!(t.id(), "entry-e1-is_rated_with-rating-r1");
}

#[test]
fn relation_and_context_names_round_trip() {
    assert_eq!(parse_relation("subscribed_to"), Some(Relation::SubscribedTo));
    assert_eq!(parse_relation("unknown"), None);
    assert_eq!(parse_rating_context("diversity"), Some(RatingContext::Diversity));
    assert_eq!(rating_context_name(&RatingContext::Solidarity), "solidarity");
    assert_eq!(parse_rating_context(""), None);
}

#[test]
fn confirmation_email_carries_the_id() {
    let mail = email_confirmation_email("u-123");
    assert!(mail.contains("confirm_email=u-123."));
    assert!(mail.starts_with("Na du Weltverbesserer*,"));
}
