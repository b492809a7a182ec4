use catalog::{Db, RawTimestamp, Review, ReviewError, Timestamp, TimestampError, DateEntry, NumberLong};
use catalog::review::{deserialize_timestamp, parse_i64, zero};

fn all(db: &Db) -> Vec<Review> {
    db.reviews().into_iter().cloned().collect()
}

#[test]
fn add_reviews() {
    let mut db = Db::new("test");
    let reviews = vec![
        Review {
            content: "foo".into(),
            course_id: "MATH240".into(),
            instructor: "test".into(),
            rating: 5,
            user_id: "1".into(),
            ..Default::default()
        },
        Review {
            content: "foo".into(),
            course_id: "MATH240".into(),
            instructor: "test".into(),
            rating: 5,
            user_id: "2".into(),
            ..Default::default()
        },
        Review {
            content: "foo".into(),
            course_id: "MATH240".into(),
            instructor: "test".into(),
            rating: 5,
            user_id: "3".into(),
            ..Default::default()
        },
    ];
    for review in &reviews {
        db.add_review(review.clone()).unwrap();
    }
    assert_eq!(db.reviews().len(), 3);
    assert_eq!(all(&db), reviews);
}

#[test]
fn find_reviews_by_course_id() {
    let mut db = Db::new("test");
    let reviews = vec![
        Review {
            content: "foo".into(),
            user_id: "1".into(),
            instructor: "test".into(),
            rating: 5,
            course_id: "MATH240".into(),
            ..Default::default()
        },
        Review {
            content: "foo".into(),
            user_id: "2".into(),
            instructor: "test".into(),
            rating: 5,
            course_id: "MATH240".into(),
            ..Default::default()
        },
        Review {
            content: "foo".into(),
            user_id: "3".into(),
            instructor: "test".into(),
            rating: 5,
            course_id: "MATH340".into(),
            ..Default::default()
        },
    ];
    for review in &reviews {
        db.add_review(review.clone()).unwrap();
    }
    assert_eq!(db.reviews().len(), 3);
    assert_eq!(all(&db), reviews);
    let found: Vec<Review> = db.find_reviews_by_course_id("MATH240").into_iter().cloned().collect();
    assert_eq!(
        found,
        vec![
            Review {
                content: "foo".into(),
                user_id: "1".into(),
                instructor: "test".into(),
                rating: 5,
                course_id: "MATH240".into(),
                ..Default::default()
            },
            Review {
                content: "foo".into(),
                course_id: "MATH240".into(),
                instructor: "test".into(),
                rating: 5,
                user_id: "2".into(),
                ..Default::default()
            }
        ]
    );
}

#[test]
fn find_reviews_by_user_id() {
    let mut db = Db::new("test");
    let reviews = vec![
        Review {
            content: "foo".into(),
            user_id: "1".into(),
            course_id: "MATH240".into(),
            ..Default::default()
        },
        Review {
            content: "foo".into(),
            user_id: "2".into(),
            course_id: "MATH240".into(),
            ..Default::default()
        },
        Review {
            content: "foo".into(),
            user_id: "3".into(),
            course_id: "MATH340".into(),
            ..Default::default()
        },
    ];
    for review in &reviews {
        db.add_review(review.clone()).unwrap();
    }
    assert_eq!(db.reviews().len(), 3);
    assert_eq!(all(&db), reviews);
    let found: Vec<Review> = db.find_reviews_by_user_id("2").into_iter().cloned().collect();
    assert_eq!(
        found,
        vec![Review {
            content: "foo".into(),
            user_id: "2".into(),
            instructor: "".into(),
            rating: 0,
            course_id: "MATH240".into(),
            ..Default::default()
        },]
    );
}

#[test]
fn dont_add_multiple_reviews_per_user() {
    let mut db = Db::new("test");
    let review = Review {
        user_id: "1".into(),
        course_id: "MATH240".into(),
        ..Default::default()
    };
    db.add_review(review.clone()).unwrap();
    assert!(db.add_review(review).is_err());
}

#[test]
fn second_review_is_a_conflict() {
    let mut db = Db::new("test");
    let review = Review { user_id: "1".into(), course_id: "MATH240".into(), ..Default::default() };
    assert_eq!(db.add_review(review.clone()), Ok(()));
    assert_eq!(db.add_review(review), Err(ReviewError::Conflict));
    assert_eq!(db.reviews().len(), 1);
}

#[test]
fn update_review() {
    let mut db = Db::new("test");
    db.add_review(Review {
        content: "foo".into(),
        course_id: "MATH240".into(),
        instructor: "bar".into(),
        rating: 5,
        user_id: "1".into(),
        timestamp: Timestamp { millis: 1_650_000_000_000 },
    })
    .unwrap();
    let timestamp = Timestamp { millis: 1_650_000_100_000 };
    assert_eq!(
        db.update_review(Review {
            content: "bar".into(),
            course_id: "MATH240".into(),
            instructor: "foo".into(),
            rating: 4,
            user_id: "1".into(),
            timestamp
        }),
        1
    );
    assert_eq!(
        db.update_review(Review {
            content: "bar".into(),
            course_id: "MATH240".into(),
            instructor: "foo".into(),
            rating: 4,
            user_id: "2".into(),
            ..Default::default()
        }),
        0
    );
    let review = db.find_review("MATH240", "1").unwrap();
    assert_eq!(review.content, "bar");
    assert_eq!(review.instructor, "foo");
    assert_eq!(review.rating, 4);
    assert_eq!(review.timestamp, timestamp);
    assert_eq!(db.reviews().len(), 1);
    assert!(db.find_review("MATH240", "2").is_none());
}

#[test]
fn delete_review() {
    let mut db = Db::new("test");
    db.add_review(Review {
        content: "foo".into(),
        course_id: "MATH240".into(),
        user_id: "1".into(),
        ..Default::default()
    })
    .unwrap();
    assert_eq!(db.delete_review("MATH240", "2"), 0);
    assert_eq!(db.delete_review("MATH240", "1"), 1);
    assert_eq!(db.find_review("MATH240", "1"), None);
}

#[test]
fn delete_review_then_add_again() {
    let mut db = Db::new("test");
    db.add_review(Review {
        content: "foo".into(),
        course_id: "MATH240".into(),
        user_id: "1".into(),
        ..Default::default()
    })
    .unwrap();
    assert_eq!(db.delete_review("MATH240", "1"), 1);
    assert!(db
        .add_review(Review {
            content: "foo".into(),
            course_id: "MATH240".into(),
            user_id: "1".into(),
            ..Default::default()
        })
        .is_ok());
}

#[test]
fn timestamp_from_integer() {
    assert_eq!(
        deserialize_timestamp(&RawTimestamp::Integer(1_650_000_000_000)),
        Ok(Timestamp { millis: 1_650_000_000_000 })
    );
    assert_eq!(
        deserialize_timestamp(&RawTimestamp::Integer(u64::MAX)),
        Err(TimestampError::OutOfRange)
    );
}

#[test]
fn timestamp_from_date_wrapper() {
    let raw = RawTimestamp::Wrapped(vec![DateEntry {
        key: "$date".into(),
        number_long: NumberLong::Text("1650000000000".into()),
    }]);
    assert_eq!(deserialize_timestamp(&raw), Ok(Timestamp { millis: 1_650_000_000_000 }));
    let not_text = RawTimestamp::Wrapped(vec![DateEntry {
        key: "$date".into(),
        number_long: NumberLong::NotText,
    }]);
    assert_eq!(deserialize_timestamp(&not_text), Err(TimestampError::Invalid));
}

#[test]
fn timestamp_without_date_is_invalid() {
    let raw = RawTimestamp::Wrapped(vec![DateEntry {
        key: "other".into(),
        number_long: NumberLong::Text("5".into()),
    }]);
    assert_eq!(deserialize_timestamp(&raw), Err(TimestampError::Invalid));
    let bad = RawTimestamp::Wrapped(vec![DateEntry {
        key: "$date".into(),
        number_long: NumberLong::Text("12x".into()),
    }]);
    assert_eq!(deserialize_timestamp(&bad), Err(TimestampError::Invalid));
    assert_eq!(deserialize_timestamp(&RawTimestamp::Wrapped(vec![])), Err(TimestampError::Invalid));
}

#[test]
fn parse_signed_decimals() {
    assert_eq!(parse_i64("0"), Some(0));
    assert_eq!(parse_i64("+42"), Some(42));
    assert_eq!(parse_i64("-42"), Some(-42));
    assert_eq!(parse_i64("9223372036854775807"), Some(i64::MAX));
    assert_eq!(parse_i64("-9223372036854775808"), Some(i64::MIN));
    assert_eq!(parse_i64("9223372036854775808"), None);
    assert_eq!(parse_i64(""), None);
    assert_eq!(parse_i64("-"), None);
    assert_eq!(parse_i64("1 2"), None);
}

#[test]
fn review_defaults() {
    let r = Review::default();
    assert_eq!(r.rating, 0);
    assert_eq!(r.timestamp, Timestamp { millis: 0 });
    assert_eq!(zero(), 0);
}

#[test]
fn update_with_same_fields_modifies_nothing() {
    let mut db = Db::new("test");
    let review = Review {
        content: "foo".into(),
        course_id: "MATH240".into(),
        instructor: "bar".into(),
        rating: 5,
        user_id: "1".into(),
        timestamp: Timestamp { millis: 7 },
    };
    db.add_review(review.clone()).unwrap();
    assert_eq!(db.update_review(review.clone()), 0);
    assert_eq!(all(&db), vec![review.clone()]);
    assert_eq!(db.update_review(Review { rating: 4, ..review }), 1);
}
