use pointcloud::errors::PointCloudError;
use pointcloud::small_cat::SmallCatSummary;
use pointcloud::string_summary::StringSummary;
use pointcloud::summary::Summary;

fn access_error() -> PointCloudError {
    PointCloudError::DataAccessError { index: 0, reason: "address not found".to_string() }
}

#[test]
fn categorical_scenario() {
    // The sequence [A, B, A, None, A], with A = 1 and B = 2.
    let mut s = SmallCatSummary::default();
    s.add(Ok(Some(&1i64)));
    s.add(Ok(Some(&2i64)));
    s.add(Ok(Some(&1i64)));
    s.add(Ok(None));
    s.add(Ok(Some(&1i64)));

    assert_eq!(s.count(), 4);
    assert_eq!(s.nones(), 1);
    assert_eq!(s.errors(), 0);
    assert_eq!(s.value_count(1), 3);
    assert_eq!(s.value_count(2), 1);
    assert_eq!(s.value_count(3), 0);
}

#[test]
fn categorical_merge_is_order_independent() {
    let feed: [Result<Option<&i64>, PointCloudError>; 6] = [
        Ok(Some(&5i64)),
        Ok(None),
        Ok(Some(&7i64)),
        Err(access_error()),
        Ok(Some(&5i64)),
        Ok(Some(&9i64)),
    ];

    let mut in_order = SmallCatSummary::default();
    for v in feed.clone() {
        in_order.add(v);
    }

    let mut reversed = SmallCatSummary::default();
    let mut rev = feed.clone();
    rev.reverse();
    for v in rev {
        reversed.add(v);
    }

    let mut first_part = SmallCatSummary::default();
    let mut second_part = SmallCatSummary::default();
    for (k, v) in feed.into_iter().enumerate() {
        if k < 2 {
            first_part.add(v);
        } else {
            second_part.add(v);
        }
    }
    let mut partitioned = first_part;
    partitioned.combine(second_part);

    for s in [&reversed, &partitioned] {
        assert_eq!(in_order.count(), s.count());
        assert_eq!(in_order.nones(), s.nones());
        assert_eq!(in_order.errors(), s.errors());
        for v in [5i64, 7, 9] {
            assert_eq!(in_order.value_count(v), s.value_count(v));
        }
    }
    assert_eq!(in_order.count(), 4);
    assert_eq!(in_order.nones(), 1);
    assert_eq!(in_order.errors(), 1);
    assert_eq!(in_order.value_count(5), 2);
}

#[test]
fn categorical_errors_and_nones_stay_apart() {
    let mut s = SmallCatSummary::default();
    s.add(Ok(None));
    s.add(Ok(None));
    s.add(Err(access_error()));
    assert_eq!(s.nones(), 2);
    assert_eq!(s.errors(), 1);
    assert_eq!(s.count(), 0);
}

#[test]
fn string_counts() {
    let a = "alpha".to_string();
    let b = "beta".to_string();
    let mut s = StringSummary::default();
    s.add(Ok(Some(&a)));
    s.add(Ok(Some(&b)));
    s.add(Ok(Some(&a)));
    s.add(Ok(None));
    s.add(Err(access_error()));

    assert_eq!(s.count(), 3);
    assert_eq!(s.nones(), 1);
    assert_eq!(s.errors(), 1);
    assert_eq!(s.value_count(&a), 2);
    assert_eq!(s.value_count(&b), 1);
    assert_eq!(s.value_count(&"gamma".to_string()), 0);
}

#[test]
fn string_merge_is_order_independent() {
    let a = "alpha".to_string();
    let b = "beta".to_string();

    let mut in_order = StringSummary::default();
    in_order.add(Ok(Some(&a)));
    in_order.add(Ok(None));
    in_order.add(Ok(Some(&b)));
    in_order.add(Ok(Some(&a)));

    let mut left = StringSummary::default();
    left.add(Ok(Some(&a)));
    let mut right = StringSummary::default();
    right.add(Ok(Some(&b)));
    right.add(Ok(Some(&a)));
    right.add(Ok(None));
    let mut partitioned = left;
    partitioned.combine(right);

    assert_eq!(in_order.count(), partitioned.count());
    assert_eq!(in_order.nones(), partitioned.nones());
    assert_eq!(in_order.errors(), partitioned.errors());
    assert_eq!(in_order.value_count(&a), partitioned.value_count(&a));
    assert_eq!(in_order.value_count(&b), partitioned.value_count(&b));
    assert_eq!(partitioned.count(), 3);
    assert_eq!(partitioned.value_count(&a), 2);
}

#[test]
fn summaries_clone_their_state() {
    let mut s = SmallCatSummary::default();
    s.add(Ok(Some(&4i64)));
    s.add(Ok(Some(&4i64)));
    s.add(Ok(None));
    let t = s.clone();
    assert_eq!(t.count(), 2);
    assert_eq!(t.nones(), 1);
    assert_eq!(t.value_count(4), 2);

    let w = "word".to_string();
    let mut u = StringSummary::default();
    u.add(Ok(Some(&w)));
    u.add(Err(access_error()));
    let v = u.clone();
    assert_eq!(v.count(), 1);
    assert_eq!(v.errors(), 1);
    assert_eq!(v.value_count(&w), 1);
}
