use my_no_sql::data_to_gc::DataToGc;
use my_no_sql::db_partition::DbPartition;
use my_no_sql::db_row::{
    find_json_separator_after, find_json_separator_before, get_the_end_of_the_json, DbRow,
    Expiration,
};
use my_no_sql::db_table::{AvgSize, DbTableAttributes, DbTableInner};
use my_no_sql::db_table_reader::DbTable;
use my_no_sql::expiration_index::ExpirationIndexContainer;
use my_no_sql::json_entity::{DbEntityParseFail, DbJsonEntity};
use my_no_sql::json_time_stamp::{find_end_of_the_string, JsonTimeStamp};
use my_no_sql::time::DateTimeAsMicroseconds;

const NOW: i64 = 1_700_000_000_000_000;
const NOW_TEXT: &str = "2023-11-14T22:13:20.000000+00:00";

fn time_stamp(micros: i64) -> JsonTimeStamp {
    JsonTimeStamp::from_date_time(DateTimeAsMicroseconds::new(micros), NOW_TEXT.as_bytes())
}

fn make_row(json: &str, expires: Option<(i64, &str)>, now: i64) -> DbRow {
    let ts = time_stamp(now);
    let (raw, entity) = DbJsonEntity::parse_with_time_stamp(json.as_bytes(), &ts).unwrap();
    let expires =
        expires.map(|(m, text)| Expiration::new(DateTimeAsMicroseconds::new(m), text.as_bytes()));
    DbRow::new(entity, raw, expires, DateTimeAsMicroseconds::new(now))
}

fn new_table() -> DbTableInner {
    DbTableInner::new(
        b"test-table",
        DbTableAttributes::create_default(DateTimeAsMicroseconds::new(NOW)),
        DateTimeAsMicroseconds::new(NOW),
    )
}

const DOC: &str = r#"{
            "PartitionKey": "test",
            "RowKey": "test"
        }"#;

#[test]
fn test_insert_record() {
    let mut db_table = new_table();
    let db_row = make_row(DOC, None, NOW);
    let size = db_row.get_src_as_slice().len();
    db_table.insert_row(db_row, DateTimeAsMicroseconds::new(NOW), None);
    assert_eq!(db_table.get_table_size(), size);
    assert_eq!(db_table.get_partitions_amount(), 1);
}

#[test]
fn test_insert_and_insert_or_replace() {
    let mut db_table = new_table();
    let db_row = make_row(DOC, None, NOW);
    db_table.insert_row(db_row, DateTimeAsMicroseconds::new(NOW), None);

    let test_json = r#"{
            "PartitionKey": "test",
            "RowKey": "test",
            "AAA": "111"
        }"#;
    let db_row2 = make_row(test_json, None, NOW);
    let size2 = db_row2.get_src_as_slice().len();
    db_table.insert_or_replace_row(db_row2, DateTimeAsMicroseconds::new(NOW), None);

    assert_eq!(db_table.get_table_size(), size2);
    assert_eq!(db_table.get_partitions_amount(), 1);
}

#[test]
fn test_insert_expiration_key() {
    let mut index = ExpirationIndexContainer::new();
    index.add(b"2", Some(DateTimeAsMicroseconds::new(2)));
    assert_eq!(index.len(), 1);
    index.add(b"1", Some(DateTimeAsMicroseconds::new(1)));
    assert_eq!(index.len(), 2);
    assert_eq!(vec![1, 2], index.get_moments());
}

#[test]
fn index_add_of_same_id_counts_once() {
    let mut index = ExpirationIndexContainer::new();
    assert_eq!(Some(true), index.add(b"a", Some(DateTimeAsMicroseconds::new(7))));
    assert_eq!(Some(false), index.add(b"a", Some(DateTimeAsMicroseconds::new(7))));
    assert_eq!(index.len(), 1);
    assert_eq!(Some(false), index.add(b"b", Some(DateTimeAsMicroseconds::new(7))));
    assert_eq!(index.len(), 2);
    assert_eq!(None, index.add(b"c", None));
    assert_eq!(index.len(), 2);
    assert_eq!(
        vec![b"a".to_vec(), b"b".to_vec()],
        index.get_items_to_expire(DateTimeAsMicroseconds::new(7))
    );
    index.remove(b"a", Some(DateTimeAsMicroseconds::new(7)));
    assert_eq!(index.len(), 1);
    index.remove(b"b", Some(DateTimeAsMicroseconds::new(7)));
    assert_eq!(index.len(), 0);
    assert!(!index.has_data_with_expiration_moment(DateTimeAsMicroseconds::new(7)));
    index.add(b"x", Some(DateTimeAsMicroseconds::new(9)));
    index.clear();
    assert_eq!(index.len(), 0);
}

#[test]
fn content_size_follows_inserts_replacements_and_removals() {
    let mut p = DbPartition::new(b"p", DateTimeAsMicroseconds::new(NOW));
    let a = make_row(r#"{"PartitionKey":"p","RowKey":"a"}"#, None, NOW);
    let b = make_row(r#"{"PartitionKey":"p","RowKey":"b","X":1}"#, None, NOW);
    let a2 = make_row(r#"{"PartitionKey":"p","RowKey":"a","Longer":"value"}"#, None, NOW);
    let (la, lb, la2) = (
        a.get_src_as_slice().len(),
        b.get_src_as_slice().len(),
        a2.get_src_as_slice().len(),
    );
    assert!(p.insert_row(a));
    assert!(p.insert_row(b));
    assert_eq!(p.get_content_size(), la + lb);
    assert!(p.insert_or_replace_row(a2).is_some());
    assert_eq!(p.get_content_size(), la2 + lb);
    assert!(p.remove_row(b"b").is_some());
    assert_eq!(p.get_content_size(), la2);
    assert!(p.remove_row(b"b").is_none());
    assert_eq!(p.get_content_size(), la2);
    p.remove_row(b"a");
    assert_eq!(p.get_content_size(), 0);
    assert!(p.is_empty());
}

#[test]
fn bulk_insert_and_bulk_remove() {
    let mut p = DbPartition::new(b"p", DateTimeAsMicroseconds::new(NOW));
    let rows = vec![
        make_row(r#"{"PartitionKey":"p","RowKey":"a"}"#, Some((10, "1970-01-01T00:00:00")), NOW),
        make_row(r#"{"PartitionKey":"p","RowKey":"b"}"#, None, NOW),
        make_row(r#"{"PartitionKey":"p","RowKey":"a","V":2}"#, None, NOW),
    ];
    let last = rows[2].get_src_as_slice().len() + rows[1].get_src_as_slice().len();
    let replaced = p.insert_or_replace_rows_bulk(rows);
    assert_eq!(replaced.len(), 1);
    assert_eq!(p.get_rows_amount(), 2);
    assert_eq!(p.get_content_size(), last);
    assert_eq!(p.get_expiration_index_rows_amount(), 0);
    let removed = p.remove_rows_bulk(&vec![b"a".to_vec(), b"zz".to_vec()]).unwrap();
    assert_eq!(removed.len(), 1);
    assert!(p.remove_rows_bulk(&vec![b"zz".to_vec()]).is_none());
    assert_eq!(p.get_rows_amount(), 1);
}

#[test]
fn insert_or_replace_twice_gives_the_same_table() {
    let mut once = new_table();
    let mut twice = new_table();
    let doc = r#"{"PartitionKey":"p","RowKey":"r","Expires":"2019-01-01T00:00:00"}"#;
    let e = Some((1_546_300_800_000_000, "2019-01-01T00:00:00"));
    once.insert_or_replace_row(make_row(doc, e, NOW), DateTimeAsMicroseconds::new(NOW), None);
    twice.insert_or_replace_row(make_row(doc, e, NOW), DateTimeAsMicroseconds::new(NOW), None);
    twice.insert_or_replace_row(make_row(doc, e, NOW), DateTimeAsMicroseconds::new(NOW), None);
    assert_eq!(once.get_table_as_json_array(), twice.get_table_as_json_array());
    assert_eq!(once.get_table_size(), twice.get_table_size());
    let p = twice.get_partition(b"p").unwrap();
    assert_eq!(p.get_expiration_index_rows_amount(), 1);
    assert_eq!(p.rows_count(), 1);
}

#[test]
fn remove_row_can_drop_the_empty_partition() {
    let mut t = new_table();
    t.insert_row(make_row(DOC, None, NOW), DateTimeAsMicroseconds::new(NOW), None);
    let (_, _, empty) = t.remove_row(b"test", b"test", true, None).unwrap();
    assert!(empty);
    assert_eq!(t.get_partitions_amount(), 0);
    assert!(t.remove_row(b"test", b"test", true, None).is_none());
}

#[test]
fn table_json_array_joins_documents() {
    let mut t = new_table();
    t.insert_or_replace_row(
        make_row(r#"{"PartitionKey":"b","RowKey":"1","TimeStamp":"x"}"#, None, NOW),
        DateTimeAsMicroseconds::new(NOW),
        Some(DateTimeAsMicroseconds::new(NOW + 1)),
    );
    t.insert_or_replace_row(
        make_row(r#"{"PartitionKey":"a","RowKey":"1","TimeStamp":"y"}"#, None, NOW),
        DateTimeAsMicroseconds::new(NOW),
        None,
    );
    assert_eq!(t.get_last_write_moment().unix_microseconds, NOW + 1);
    let json = String::from_utf8(t.get_table_as_json_array()).unwrap();
    assert_eq!(
        json,
        r#"[{"PartitionKey":"a","RowKey":"1","TimeStamp":"y"},{"PartitionKey":"b","RowKey":"1","TimeStamp":"x"}]"#
    );
    let one = String::from_utf8(t.get_partition_as_json_array(b"a")).unwrap();
    assert_eq!(one, r#"[{"PartitionKey":"a","RowKey":"1","TimeStamp":"y"}]"#);
    assert_eq!(b"[]".to_vec(), t.get_partition_as_json_array(b"zz"));
}

#[test]
fn gc_plan_drops_expired_partitions_and_rows() {
    let mut attributes = DbTableAttributes::create_default(DateTimeAsMicroseconds::new(NOW));
    attributes.max_rows_per_partition_amount = Some(1);
    let mut t = DbTableInner::new(b"t", attributes, DateTimeAsMicroseconds::new(NOW));
    let mut p = DbPartition::new(b"gone", DateTimeAsMicroseconds::new(NOW));
    p.expires = Some(DateTimeAsMicroseconds::new(100));
    t.init_partition(p);
    t.insert_or_replace_row(
        make_row(r#"{"PartitionKey":"keep","RowKey":"old"}"#, Some((50, "1970-01-01T00:00:00")), NOW),
        DateTimeAsMicroseconds::new(NOW),
        None,
    );
    t.insert_or_replace_row(
        make_row(r#"{"PartitionKey":"keep","RowKey":"young"}"#, None, NOW + 5),
        DateTimeAsMicroseconds::new(NOW),
        None,
    );
    let plan: DataToGc = t.get_data_to_gc(DateTimeAsMicroseconds::new(200));
    assert_eq!(plan.partitions, vec![b"gone".to_vec()]);
    assert_eq!(plan.db_rows.len(), 1);
    assert_eq!(plan.db_rows[0].partition_key, b"keep".to_vec());
    assert_eq!(plan.db_rows[0].row_keys, vec![b"old".to_vec(), b"old".to_vec()]);
    let nothing = t.get_data_to_gc(DateTimeAsMicroseconds::new(10));
    assert!(nothing.partitions.is_empty());
}

#[test]
fn partitions_over_the_limit_oldest_read_first_dropped() {
    let mut attributes = DbTableAttributes::create_default(DateTimeAsMicroseconds::new(NOW));
    attributes.max_partitions_amount = Some(1);
    let mut t = DbTableInner::new(b"t", attributes, DateTimeAsMicroseconds::new(NOW));
    for (key, read) in [("a", 30), ("b", 10), ("c", 20)] {
        let mut p = DbPartition::new(key.as_bytes(), DateTimeAsMicroseconds::new(NOW));
        p.update_last_read_moment(DateTimeAsMicroseconds::new(read));
        t.init_partition(p);
    }
    let list = t.partitions.get_partitions_to_gc_by_max_amount(1).unwrap();
    let keys: Vec<Vec<u8>> = list.iter().map(|p| p.partition_key.clone()).collect();
    assert_eq!(keys, vec![b"c".to_vec(), b"b".to_vec()]);
    assert!(t.partitions.get_partitions_to_gc_by_max_amount(3).is_none());
    let plan = t.get_data_to_gc(DateTimeAsMicroseconds::new(0));
    assert_eq!(plan.partitions, vec![b"c".to_vec(), b"b".to_vec()]);
}

#[test]
fn parse_rejects_what_it_cannot_take() {
    assert_eq!(
        DbEntityParseFail::FieldPartitionKeyIsRequired,
        DbJsonEntity::parse(br#"{"RowKey":"r"}"#).unwrap_err()
    );
    assert_eq!(
        DbEntityParseFail::FieldRowKeyIsRequired,
        DbJsonEntity::parse(br#"{"PartitionKey":"p"}"#).unwrap_err()
    );
    assert_eq!(
        DbEntityParseFail::JsonParseError,
        DbJsonEntity::parse(br#"{"PartitionKey":"p","RowKey":}"#).unwrap_err()
    );
    assert_eq!(DbEntityParseFail::JsonParseError, DbJsonEntity::parse(b"[1]").unwrap_err());
    let e = DbJsonEntity::parse(
        br#" { "A" : [1, {"b": "}"}], "PartitionKey":"p\"q" , "RowKey" : "r", "Expires": null } "#,
    )
    .unwrap();
    assert!(e.expires.is_some());
    assert!(e.time_stamp.is_none());
}

#[test]
fn parse_adds_a_missing_time_stamp() {
    let ts = time_stamp(NOW);
    let (raw, entity) =
        DbJsonEntity::parse_with_time_stamp(br#"{"PartitionKey":"p","RowKey":"r"}"#, &ts).unwrap();
    assert_eq!(
        String::from_utf8(raw.clone()).unwrap(),
        r#"{"PartitionKey":"p","RowKey":"r","TimeStamp":"2023-11-14T22:13:20.000000"}"#
    );
    let row = DbRow::new(entity, raw, None, DateTimeAsMicroseconds::new(NOW));
    assert_eq!(row.get_time_stamp(), b"2023-11-14T22:13:20.000000");
    assert_eq!(row.get_partition_key(), b"p");
    assert_eq!(row.get_row_key(), b"r");
}

#[test]
fn round_trip_without_expires() {
    let doc = r#"{"PartitionKey":"p","RowKey":"r","TimeStamp":"t","V":[1,2]}"#;
    let row = make_row(doc, None, NOW);
    assert_eq!(row.to_vec(), doc.as_bytes().to_vec());
}

#[test]
fn write_json_removes_stale_expires() {
    let doc = r#"{"PartitionKey":"p","RowKey":"r","TimeStamp":"t", "Expires":"2019-01-01T00:00:00"}"#;
    let mut row = make_row(doc, Some((1_546_300_800_000_000, "2019-01-01T00:00:00")), NOW);
    let old = row.update_expires(None);
    assert_eq!(old, Some(DateTimeAsMicroseconds::new(1_546_300_800_000_000)));
    let out = String::from_utf8(row.to_vec()).unwrap();
    assert!(!out.contains("\"Expires\""));
    assert_eq!(out, r#"{"PartitionKey":"p","RowKey":"r","TimeStamp":"t"}"#);

    let doc = r#"{"Expires":"x" ,"PartitionKey":"p","RowKey":"r","TimeStamp":"t"}"#;
    let row = make_row(doc, None, NOW);
    assert_eq!(
        String::from_utf8(row.to_vec()).unwrap(),
        r#"{"PartitionKey":"p","RowKey":"r","TimeStamp":"t"}"#
    );
}

#[test]
fn write_json_rewrites_or_adds_expires() {
    let doc = r#"{"PartitionKey":"p","RowKey":"r","TimeStamp":"t","Expires":"old"}"#;
    let row = make_row(doc, Some((5, "2030-05-06T07:08:09.123456+00:00")), NOW);
    assert_eq!(
        String::from_utf8(row.to_vec()).unwrap(),
        r#"{"PartitionKey":"p","RowKey":"r","TimeStamp":"t","Expires":"2030-05-06T07:08:09"}"#
    );
    let doc = r#"{"PartitionKey":"p","RowKey":"r","TimeStamp":"t"}"#;
    let mut row = make_row(doc, None, NOW);
    row.update_expires(Some(Expiration::new(
        DateTimeAsMicroseconds::new(9),
        b"2031-01-02T03:04:05",
    )));
    assert_eq!(row.get_expires(), Some(DateTimeAsMicroseconds::new(9)));
    assert_eq!(
        String::from_utf8(row.to_vec()).unwrap(),
        r#"{"PartitionKey":"p","RowKey":"r","TimeStamp":"t","Expires":"2031-01-02T03:04:05"}"#
    );
    row.update_expires(Some(Expiration::new(DateTimeAsMicroseconds::new(0), b"x")));
    assert_eq!(row.get_expires(), None);
}

#[test]
fn separators_and_ends() {
    assert_eq!(find_json_separator_before(b"{\"a\":1 , \"b\"", 7), Some(7));
    assert_eq!(find_json_separator_before(b"{\"a\":1 , \"b\"", 8), Some(7));
    assert_eq!(find_json_separator_before(b"{ \"b\"", 1), None);
    assert_eq!(find_json_separator_after(b"1 , \"b\"", 1), Some(3));
    assert_eq!(find_json_separator_after(b"1 }", 1), None);
    assert_eq!(get_the_end_of_the_json(b"{\"a\":1}  "), 6);
    assert_eq!(get_the_end_of_the_json(b"abc"), 0);
}

#[test]
fn time_stamp_text_is_cut_after_its_digits() {
    assert_eq!(find_end_of_the_string(b"2020-01-01T00:00:00.123"), 23);
    assert_eq!(find_end_of_the_string(b"2020-01-01T00:00:00.123456+00:00"), 26);
    let ts = JsonTimeStamp::from_date_time(
        DateTimeAsMicroseconds::new(1),
        b"2020-01-01T00:00:00.123456+00:00",
    );
    assert_eq!(ts.as_slice(), b"2020-01-01T00:00:00.123456");
}

#[test]
fn average_size_moves_halfway() {
    let mut a = AvgSize::new();
    a.add(10);
    assert_eq!(a.avg, 10);
    a.add(20);
    assert_eq!(a.avg, 15);
    a.add(16);
    assert_eq!(a.avg, 15);
    assert_eq!(a.count, 3);
}

#[test]
fn table_update_expiration_time_is_indexed() {
    let mut t = new_table();
    t.insert_row(make_row(DOC, None, NOW), DateTimeAsMicroseconds::new(NOW), None);
    let e = Expiration::new(DateTimeAsMicroseconds::new(2), b"1970-01-01T00:00:00");
    assert!(t.update_expiration_time(b"test", b"test", Some(e.clone())).is_some());
    assert!(t.update_expiration_time(b"test", b"test", Some(e)).is_none());
    let p = t.get_partition(b"test").unwrap();
    assert_eq!(p.get_expiration_index_rows_amount(), 1);
    assert_eq!(p.get_rows_to_expire(DateTimeAsMicroseconds::new(2)), vec![b"test".to_vec()]);
    assert!(t.update_expiration_time(b"none", b"test", None).is_none());
}

#[test]
fn reading_rows_with_skip_and_limit() {
    let mut t = new_table();
    for (pk, rk) in [("a", "1"), ("a", "2"), ("b", "1"), ("c", "3")] {
        let doc = format!(r#"{{"PartitionKey":"{}","RowKey":"{}"}}"#, pk, rk);
        let e = if rk == "1" { Some((7, "1970-01-01T00:00:00")) } else { None };
        t.insert_or_replace_row(make_row(&doc, e, NOW), DateTimeAsMicroseconds::new(NOW), None);
    }
    let keys = |rows: Vec<&DbRow>| -> Vec<(Vec<u8>, Vec<u8>)> {
        rows.iter().map(|r| (r.get_partition_key().to_vec(), r.get_row_key().to_vec())).collect()
    };
    assert_eq!(t.get_all_rows(None, None).len(), 4);
    assert_eq!(
        keys(t.get_all_rows(Some(1), Some(2))),
        vec![(b"a".to_vec(), b"2".to_vec()), (b"b".to_vec(), b"1".to_vec())]
    );
    assert_eq!(t.get_all_rows(Some(10), None).len(), 0);
    assert_eq!(
        keys(t.get_by_row_key(b"1", None, None)),
        vec![(b"a".to_vec(), b"1".to_vec()), (b"b".to_vec(), b"1".to_vec())]
    );
    assert_eq!(keys(t.get_by_row_key(b"1", Some(1), Some(5))), vec![(b"b".to_vec(), b"1".to_vec())]);
    assert_eq!(t.get_rows_amount(), 4);
    assert_eq!(t.get_expiration_index_rows_amount(), 2);
    let moments = t.get_partitions_last_write_moment();
    assert_eq!(moments.len(), 3);
    assert_eq!(moments[2].partition_key, b"c".to_vec());
}

#[test]
fn reader_table_keeps_rows_without_write_moments() {
    let mut t = DbTable::new(b"reader");
    assert!(t.insert_row(make_row(DOC, None, NOW), DateTimeAsMicroseconds::new(NOW)));
    assert!(!t.insert_row(make_row(DOC, None, NOW), DateTimeAsMicroseconds::new(NOW)));
    assert!(t.insert_or_replace_row(make_row(DOC, None, NOW), DateTimeAsMicroseconds::new(NOW)).is_some());
    assert_eq!(t.get_rows_amount(), 1);
    assert_eq!(t.get_all_rows().len(), 1);
    let removed = t.bulk_remove_rows(b"test", &vec![b"test".to_vec()], true).unwrap();
    assert_eq!(removed.0.len(), 1);
    assert!(removed.1);
    assert_eq!(t.get_partitions_amount(), 0);
    assert!(t.clear_table().is_none());
}

#[test]
fn remove_clears_index_and_content_size() {
    let mut p = DbPartition::new(b"test", DateTimeAsMicroseconds::new(NOW));
    let doc = r#"{"PartitionKey":"test","RowKey":"test","Expires":"2019-01-01T00:00:00"}"#;
    p.insert_or_replace_row(make_row(doc, Some((1_546_300_800_000_000, "2019-01-01T00:00:00")), NOW));
    assert_eq!(p.get_expiration_index_rows_amount(), 1);
    p.remove_row(b"test");
    assert_eq!(p.get_expiration_index_rows_amount(), 0);
    assert_eq!(p.get_content_size(), 0);
}

#[test]
fn partitions_with_expiration_are_indexed_once() {
    let mut t = new_table();
    let mut p = DbPartition::new(b"x", DateTimeAsMicroseconds::new(NOW));
    p.expires = Some(DateTimeAsMicroseconds::new(100));
    t.init_partition(p);
    let mut p = DbPartition::new(b"x", DateTimeAsMicroseconds::new(NOW));
    p.expires = Some(DateTimeAsMicroseconds::new(300));
    t.init_partition(p);
    let mut q = DbPartition::new(b"y", DateTimeAsMicroseconds::new(NOW));
    q.expires = None;
    t.init_partition(q);
    assert!(t.partitions.get_partitions_to_expire(DateTimeAsMicroseconds::new(200)).is_empty());
    assert_eq!(
        t.partitions.get_partitions_to_expire(DateTimeAsMicroseconds::new(300)),
        vec![b"x".to_vec()]
    );
    t.remove_partition(b"x", None);
    assert!(t.partitions.get_partitions_to_expire(DateTimeAsMicroseconds::new(i64::MAX)).is_empty());
}

#[test]
fn bulk_remove_returns_rows_in_key_order_and_keeps_others() {
    let mut t = new_table();
    for rk in ["a", "b", "c"] {
        let doc = format!(r#"{{"PartitionKey":"p","RowKey":"{}"}}"#, rk);
        t.insert_or_replace_row(make_row(&doc, None, NOW), DateTimeAsMicroseconds::new(NOW), None);
    }
    let (_, removed, empty) = t
        .bulk_remove_rows(b"p", &vec![b"c".to_vec(), b"x".to_vec(), b"a".to_vec()], true, Some(DateTimeAsMicroseconds::new(9)))
        .unwrap();
    let keys: Vec<Vec<u8>> = removed.iter().map(|r| r.get_row_key().to_vec()).collect();
    assert_eq!(keys, vec![b"c".to_vec(), b"a".to_vec()]);
    assert!(!empty);
    let p = t.get_partition(b"p").unwrap();
    assert_eq!(p.rows_count(), 1);
    assert_eq!(p.get_last_write_moment().unix_microseconds, 9);
    assert_eq!(t.get_last_write_moment().unix_microseconds, 9);
    assert!(t.bulk_remove_rows(b"p", &vec![b"zz".to_vec()], true, None).is_none());
    let (_, _, empty) = t.bulk_remove_rows(b"p", &vec![b"b".to_vec()], true, None).unwrap();
    assert!(empty);
    assert_eq!(t.get_partitions_amount(), 0);
}

#[test]
fn bulk_insert_returns_displaced_rows_in_order() {
    let mut p = DbPartition::new(b"p", DateTimeAsMicroseconds::new(NOW));
    p.insert_row(make_row(r#"{"PartitionKey":"p","RowKey":"b","V":0}"#, None, NOW));
    let rows = vec![
        make_row(r#"{"PartitionKey":"p","RowKey":"a","V":1}"#, None, NOW),
        make_row(r#"{"PartitionKey":"p","RowKey":"b","V":2}"#, None, NOW),
        make_row(r#"{"PartitionKey":"p","RowKey":"a","V":3}"#, None, NOW),
    ];
    let displaced = p.insert_or_replace_rows_bulk(rows);
    let docs: Vec<Vec<u8>> = displaced.iter().map(|r| r.get_src_as_slice().to_vec()).collect();
    assert_eq!(
        docs,
        vec![
            br#"{"PartitionKey":"p","RowKey":"b","V":0,"TimeStamp":"2023-11-14T22:13:20.000000"}"#.to_vec(),
            br#"{"PartitionKey":"p","RowKey":"a","V":1,"TimeStamp":"2023-11-14T22:13:20.000000"}"#.to_vec(),
        ]
    );
}
