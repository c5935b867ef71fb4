use my_no_sql::db_row::{DbRow, Expiration};
use my_no_sql::db_rows_container::DbRowsContainer;
use my_no_sql::json_entity::DbJsonEntity;
use my_no_sql::json_time_stamp::JsonTimeStamp;
use my_no_sql::time::DateTimeAsMicroseconds;

const JAN_2019: i64 = 1_546_300_800_000_000;
const NOW: i64 = 1_700_000_000_000_000;

fn time_stamp(micros: i64) -> JsonTimeStamp {
    JsonTimeStamp::from_date_time(
        DateTimeAsMicroseconds::new(micros),
        b"2023-11-14T22:13:20.000000+00:00",
    )
}

fn make_row(json: &str, expires: Option<(i64, &str)>, now: i64) -> DbRow {
    let ts = time_stamp(now);
    let (raw, entity) = DbJsonEntity::parse_with_time_stamp(json.as_bytes(), &ts).unwrap();
    let expires =
        expires.map(|(m, text)| Expiration::new(DateTimeAsMicroseconds::new(m), text.as_bytes()));
    DbRow::new(entity, raw, expires, DateTimeAsMicroseconds::new(now))
}

fn assert_index_len(rows: &DbRowsContainer, len: usize) {
    assert_eq!(rows.rows_with_expiration_index_len(), len);
    let index = rows.get_expiration_index();
    assert_eq!(index.len(), len);
    let all = index.get_items_to_expire(DateTimeAsMicroseconds::new(i64::MAX));
    assert_eq!(all.len(), len);
}

const WITH_EXPIRES: &str = r#"{
            "PartitionKey": "test",
            "RowKey": "test",
            "Expires": "2019-01-01T00:00:00"
        }"#;

const WITHOUT_EXPIRES: &str = r#"{
            "PartitionKey": "test",
            "RowKey": "test"
        }"#;

#[test]
fn test_that_index_appears() {
    let db_row = make_row(WITH_EXPIRES, Some((JAN_2019, "2019-01-01T00:00:00")), NOW);
    let mut db_rows = DbRowsContainer::new();
    db_rows.insert(db_row);
    assert_index_len(&db_rows, 1);
    assert_eq!(
        vec![JAN_2019],
        db_rows.get_expiration_index().get_moments()
    );
}

#[test]
fn test_that_index_does_not_appear_since_we_do_not_have_expiration() {
    let db_row = make_row(WITHOUT_EXPIRES, None, NOW);
    let mut db_rows = DbRowsContainer::new();
    db_rows.insert(db_row);
    assert_index_len(&db_rows, 0);
}

#[test]
fn test_that_index_is_removed() {
    let db_row = make_row(WITH_EXPIRES, Some((JAN_2019, "2019-01-01T00:00:00")), NOW);
    let mut db_rows = DbRowsContainer::new();
    db_rows.insert(db_row);
    db_rows.remove(b"test");
    assert_index_len(&db_rows, 0);
    assert_eq!(db_rows.len(), 0);
}

#[test]
fn test_update_expiration_time_from_no_to() {
    let db_row = make_row(WITHOUT_EXPIRES, None, NOW);
    let mut db_rows = DbRowsContainer::new();
    db_rows.insert(db_row);
    assert_index_len(&db_rows, 0);

    let new_expiration_time = Expiration::new(DateTimeAsMicroseconds::new(2), b"1970-01-01T00:00:00");
    db_rows.update_expiration_time(b"test", Some(new_expiration_time));

    assert_eq!(
        true,
        db_rows
            .get_expiration_index()
            .has_data_with_expiration_moment(DateTimeAsMicroseconds::new(2))
    );
    assert_index_len(&db_rows, 1);
}

#[test]
fn test_update_expiration_time_to_new_expiration_time() {
    let db_row = make_row(WITH_EXPIRES, Some((JAN_2019, "2019-01-01T00:00:00")), NOW);
    let mut db_rows = DbRowsContainer::new();
    db_rows.insert(db_row);

    let current_expiration = DateTimeAsMicroseconds::new(JAN_2019);
    assert_eq!(
        true,
        db_rows
            .get_expiration_index()
            .has_data_with_expiration_moment(current_expiration)
    );
    assert_index_len(&db_rows, 1);

    db_rows.update_expiration_time(
        b"test",
        Some(Expiration::new(DateTimeAsMicroseconds::new(2), b"1970-01-01T00:00:00")),
    );

    assert_eq!(
        true,
        db_rows
            .get_expiration_index()
            .has_data_with_expiration_moment(DateTimeAsMicroseconds::new(2))
    );
    assert_eq!(
        false,
        db_rows
            .get_expiration_index()
            .has_data_with_expiration_moment(current_expiration)
    );
    assert_index_len(&db_rows, 1);
}

#[test]
fn test_update_expiration_time_from_some_to_no() {
    let mut db_rows = DbRowsContainer::new();
    let db_row = make_row(WITH_EXPIRES, Some((JAN_2019, "2019-01-01T00:00:00")), NOW);
    db_rows.insert(db_row);

    let current_expiration = DateTimeAsMicroseconds::new(JAN_2019);
    assert_eq!(
        true,
        db_rows
            .get_expiration_index()
            .has_data_with_expiration_moment(current_expiration)
    );
    assert_eq!(1, db_rows.rows_with_expiration_index_len());

    db_rows.update_expiration_time(b"test", None);
    assert_eq!(0, db_rows.rows_with_expiration_index_len());
}

#[test]
fn test_we_do_not_have_db_rows_to_expire() {
    let mut db_rows = DbRowsContainer::new();
    let db_row = make_row(WITH_EXPIRES, Some((JAN_2019, "2019-01-01T00:00:00")), NOW);
    db_rows.insert(db_row);

    let mut now = DateTimeAsMicroseconds::new(JAN_2019);
    now.unix_microseconds -= 1;

    let rows_to_expire = db_rows.get_expiration_index().get_items_to_expire(now);
    assert_eq!(0, rows_to_expire.len());
}

#[test]
fn test_we_do_have_db_rows_to_expire() {
    let mut db_rows = DbRowsContainer::new();
    let db_row = make_row(WITH_EXPIRES, Some((JAN_2019, "2019-01-01T00:00:00")), NOW);
    db_rows.insert(db_row);

    let now = DateTimeAsMicroseconds::new(JAN_2019);
    let rows_to_expire = db_rows.get_expiration_index().get_items_to_expire(now);
    assert_eq!(true, rows_to_expire.len() > 0);
    assert_eq!(vec![b"test".to_vec()], db_rows.get_rows_to_expire(now));
}

#[test]
fn check_gc_max_rows_amount() {
    let mut db_rows = DbRowsContainer::new();
    let mut now = NOW;

    for key in ["test1", "test2", "test3", "test4"] {
        let json = format!(
            r#"{{
            "PartitionKey": "test",
            "RowKey": "{}"
        }}"#,
            key
        );
        db_rows.insert(make_row(&json, None, now));
        now += 1_000_000;
    }

    let db_rows_to_gc = db_rows.get_rows_to_gc_by_max_amount(3).unwrap();
    assert_eq!(b"test1".to_vec(), db_rows_to_gc[0]);
    assert_eq!(1, db_rows_to_gc.len());
    assert!(db_rows.get_rows_to_gc_by_max_amount(4).is_none());
}

#[test]
fn check_we_update_row_with_the_same_expiration_date() {
    let mut db_rows = DbRowsContainer::new();

    let row = r#"{"Count":1,"PartitionKey":"in-progress-count1","RowKey":"my-id","Expires":"2025-03-12T10:55:46.0507979Z"}"#;
    let expires = Some((1_741_776_946_050_797, "2025-03-12T10:55:46.050797+00:00"));
    db_rows.insert(make_row(row, expires, NOW));
    assert_index_len(&db_rows, 1);

    db_rows.insert(make_row(row, expires, NOW));
    assert_index_len(&db_rows, 1);

    db_rows.remove(b"my-id");
    assert_index_len(&db_rows, 0);
}

#[test]
fn check_we_update_same_row_with_new_expiration_date() {
    let mut db_rows = DbRowsContainer::new();

    let row = r#"{"Count":1,"PartitionKey":"in-progress-count1","RowKey":"my-id","Expires":"2025-03-12T10:55:48.0507979Z"}"#;
    db_rows.insert(make_row(
        row,
        Some((1_741_776_948_050_797, "2025-03-12T10:55:48.050797+00:00")),
        NOW,
    ));
    assert_index_len(&db_rows, 1);

    let row = r#"{"Count":1,"PartitionKey":"in-progress-count1","RowKey":"my-id","Expires":"2025-03-12T10:55:50.0507979Z"}"#;
    db_rows.insert(make_row(
        row,
        Some((1_741_776_950_050_797, "2025-03-12T10:55:50.050797+00:00")),
        NOW,
    ));
    assert_index_len(&db_rows, 1);
    assert_eq!(
        vec![1_741_776_950_050_797],
        db_rows.get_expiration_index().get_moments()
    );

    db_rows.remove(b"my-id");
    assert_index_len(&db_rows, 0);
}

#[test]
fn update_expiration_twice_changes_nothing_the_second_time() {
    let mut db_rows = DbRowsContainer::new();
    db_rows.insert(make_row(WITHOUT_EXPIRES, None, NOW));
    let e = Expiration::new(DateTimeAsMicroseconds::new(5), b"1970-01-01T00:00:00");
    assert!(db_rows.update_expiration_time(b"test", Some(e.clone())).is_some());
    let after_first = db_rows.get(b"test").unwrap().to_vec();
    assert!(db_rows.update_expiration_time(b"test", Some(e)).is_none());
    assert_eq!(after_first, db_rows.get(b"test").unwrap().to_vec());
    assert_index_len(&db_rows, 1);
}

#[test]
fn highest_row_and_below_is_a_prefix() {
    let mut db_rows = DbRowsContainer::new();
    for key in ["b", "d", "a", "c"] {
        let json = format!(r#"{{"PartitionKey":"p","RowKey":"{}"}}"#, key);
        db_rows.insert(make_row(&json, None, NOW));
    }
    let keys: Vec<Vec<u8>> = db_rows
        .get_highest_row_and_below(b"c")
        .iter()
        .map(|r| r.get_row_key().to_vec())
        .collect();
    assert_eq!(vec![b"a".to_vec(), b"b".to_vec(), b"c".to_vec()], keys);
    assert_eq!(2, db_rows.get_highest_row_and_below(b"bb").len());
    assert_eq!(0, db_rows.get_highest_row_and_below(b"0").len());
}
