use tsdb::TsError;
use tsdb::payload::Measurement;
use tsdb::store::TimeseriesLocalDatabase;

fn sample(name: &[u8], value: f64, ts: i64) -> Measurement {
    Measurement { name: name.to_vec(), value_bits: value.to_bits(), creation_date: ts }
}

#[test]
fn test_db_put_and_get() {
    let path = "_path_for_test3_rocksdb_storage";
    let mut db = TimeseriesLocalDatabase::new(path.to_string());
    let m = sample(b"test", 0.1, chrono::Utc::now().timestamp());
    let key = db.put(m.clone()).unwrap();
    let mv = db.get(key).unwrap();
    assert_eq!(m.value_bits, mv.value_bits);
    db._delete(key).unwrap();
    db.destroy();
}

#[test]
fn put_then_get_returns_equal_record() {
    let mut db = TimeseriesLocalDatabase::new("putget".to_string());
    let m = sample(b"name-0", 1.5, 42);
    let ts = db.put_at(1000000000, m.clone()).unwrap();
    assert_eq!(ts, 1000000000);
    let got = db.get(ts).unwrap();
    assert_eq!(got, m);
}

#[test]
fn collision_overwrite_keeps_second_record() {
    let mut db = TimeseriesLocalDatabase::new("collide".to_string());
    let t = 1000000000;
    db.put_at(t, sample(b"first", 1.0, t)).unwrap();
    db.put_at(t, sample(b"second", 2.0, t)).unwrap();
    let got = db.get(t).unwrap();
    assert_eq!(got.name, b"second".to_vec());
    let range = db.get_absolute_range(t, t).unwrap();
    assert_eq!(range.len(), 1);
    assert_eq!(range[0].name, b"second".to_vec());
}

#[test]
fn absolute_range_is_closed_interval() {
    let mut db = TimeseriesLocalDatabase::new("closed".to_string());
    let t = 1000000000;
    for a in 0..4 {
        db.put_at(t + a, sample(format!("name-{}", a).as_bytes(), 1.0, t + a)).unwrap();
    }
    let range = db.get_absolute_range(t, t + 2).unwrap();
    assert_eq!(range.len(), 3);
    for (i, m) in range.iter().enumerate() {
        assert_eq!(m.name, format!("name-{}", i).as_bytes().to_vec());
    }
}

#[test]
fn absolute_range_with_gaps() {
    // Writes two seconds apart, as the original exercise produced them:
    // a three-second range holds only the first two records.
    let mut db = TimeseriesLocalDatabase::new("gaps".to_string());
    let t = 1000000000;
    for a in 0..4 {
        let ts = t + 2 * a;
        db.put_at(ts, sample(format!("name-{}", a).as_bytes(), 1.0, ts)).unwrap();
    }
    let range = db.get_absolute_range(t, t + 3).unwrap();
    assert_eq!(range.len(), 2);
}

#[test]
fn relative_range_matches_absolute_range() {
    let mut db = TimeseriesLocalDatabase::new("relative".to_string());
    let t = 1000000000;
    for a in 0..4 {
        db.put_at(t + a, sample(format!("name-{}", a).as_bytes(), 1.0, t + a)).unwrap();
    }
    let relative = db.get_relative_range_in_seconds(t, 2).unwrap();
    let absolute = db.get_absolute_range(t, t + 2).unwrap();
    assert_eq!(relative, absolute);
    assert_eq!(relative.len(), 3);
    let wider = db.get_relative_range_in_seconds(t, 3).unwrap();
    assert_eq!(wider.len(), 4);
}

#[test]
fn empty_range_is_not_an_error() {
    let mut db = TimeseriesLocalDatabase::new("empty".to_string());
    let t = 1000000000;
    db.put_at(t, sample(b"only", 1.0, t)).unwrap();
    let range = db.get_absolute_range(t, t - 1).unwrap();
    assert_eq!(range.len(), 0);
    let negative = db.get_relative_range_in_seconds(t, -1).unwrap();
    assert_eq!(negative.len(), 0);
}

#[test]
fn missing_key_is_not_found() {
    let mut db = TimeseriesLocalDatabase::new("missing".to_string());
    db.put_at(1000000000, sample(b"here", 1.0, 1)).unwrap();
    assert_eq!(db.get(1000000001), Err(TsError::NotFound));
}

#[test]
fn delete_is_idempotent() {
    let mut db = TimeseriesLocalDatabase::new("del".to_string());
    let t = 1000000000;
    db.put_at(t, sample(b"gone", 1.0, t)).unwrap();
    db._delete(t).unwrap();
    assert_eq!(db.get(t), Err(TsError::NotFound));
    assert_eq!(db._delete(t), Ok(()));
}

#[test]
fn destroy_closes_the_store() {
    let mut db = TimeseriesLocalDatabase::new("destroyed".to_string());
    db.put_at(1000000000, sample(b"x", 1.0, 1)).unwrap();
    db.destroy();
    assert_eq!(db.get(1000000000), Err(TsError::StorageError));
    assert_eq!(db.put_at(1000000000, sample(b"x", 1.0, 1)), Err(TsError::StorageError));
    assert_eq!(
        db.get_absolute_range(0, 2000000000),
        Err(TsError::StorageError)
    );
}

#[test]
fn destroy_twice_does_not_panic() {
    let mut db = TimeseriesLocalDatabase::new("twice".to_string());
    db.put_at(1000000000, sample(b"y", 1.0, 1)).unwrap();
    db.destroy();
    db.destroy();
    assert_eq!(db.get(1000000000), Err(TsError::StorageError));
}
