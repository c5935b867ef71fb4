use my_no_sql::my_no_sql_data_writer::{
    check_status, error_from_fail_contract, is_ok_result, usize_to_decimal, CreateTableParams,
    DataSynchronizationPeriod, DataWriterError, MyNoSqlDataWriter, MyNoSqlDataWriterBuilder,
    OperationFailHttpContract, ResponseStatus,
};
use my_no_sql::ping_pool::{group_tables_by_url, PingPoolInner};
use my_no_sql::sync_to_main::{UpdatePartitionExpirationTimeQueue, UpdatePartitionsLastReadTimeQueue};
use my_no_sql::time::DateTimeAsMicroseconds;
use my_no_sql::reader::{MockEntity, MyNoSqlDataReaderMock, MyNoSqlReaderTcpSerializer, TcpConnectionSettings};

fn contract(reason: &str, message: &str) -> OperationFailHttpContract {
    OperationFailHttpContract { reason: reason.to_string(), message: message.to_string() }
}

#[test]
fn fail_contracts_become_errors() {
    assert!(matches!(
        error_from_fail_contract(contract("TableAlreadyExists", "m")),
        DataWriterError::TableAlreadyExists(m) if m == "m"
    ));
    assert!(matches!(
        error_from_fail_contract(contract("TableNotFound", "t")),
        DataWriterError::TableNotFound(m) if m == "t"
    ));
    assert!(matches!(
        error_from_fail_contract(contract("RecordAlreadyExists", "r")),
        DataWriterError::RecordAlreadyExists(m) if m == "r"
    ));
    assert!(matches!(
        error_from_fail_contract(contract("RequiredEntityFieldIsMissing", "f")),
        DataWriterError::RequiredEntityFieldIsMissing(m) if m == "f"
    ));
    assert!(matches!(
        error_from_fail_contract(contract("JsonParseFail", "j")),
        DataWriterError::ServerCouldNotParseJson(m) if m == "j"
    ));
    assert!(matches!(
        error_from_fail_contract(contract("Other", "o")),
        DataWriterError::NotSupportedReason(c) if c.reason == "Other" && c.message == "o"
    ));
}

#[test]
fn status_codes() {
    assert!(is_ok_result(200));
    assert!(is_ok_result(299));
    assert!(!is_ok_result(300));
    assert!(!is_ok_result(199));
    assert_eq!(check_status(400), ResponseStatus::Fail);
    assert_eq!(check_status(409), ResponseStatus::TableNotFound);
    assert_eq!(check_status(404), ResponseStatus::NotFound);
    assert_eq!(check_status(200), ResponseStatus::Success);
}

#[test]
fn sync_periods_as_query_values() {
    let all = [
        (DataSynchronizationPeriod::Immediately, "i"),
        (DataSynchronizationPeriod::Sec1, "1"),
        (DataSynchronizationPeriod::Sec5, "5"),
        (DataSynchronizationPeriod::Sec15, "15"),
        (DataSynchronizationPeriod::Sec30, "30"),
        (DataSynchronizationPeriod::Min1, "60"),
        (DataSynchronizationPeriod::Asap, "a"),
    ];
    for (p, text) in all {
        assert_eq!(p.as_query_value(), text.as_bytes().to_vec());
    }
}

#[test]
fn create_table_params_as_query() {
    let p = CreateTableParams {
        persist: false,
        max_partitions_amount: Some(120),
        max_rows_per_partition_amount: None,
    };
    let q: Vec<(String, String)> = p
        .populate_params()
        .into_iter()
        .map(|q| (String::from_utf8(q.name).unwrap(), String::from_utf8(q.value).unwrap()))
        .collect();
    assert_eq!(
        q,
        vec![
            ("maxPartitionsAmount".to_string(), "120".to_string()),
            ("persist".to_string(), "false".to_string())
        ]
    );
    let p = CreateTableParams {
        persist: true,
        max_partitions_amount: None,
        max_rows_per_partition_amount: Some(7),
    };
    let q = p.populate_params();
    assert_eq!(q.len(), 1);
    assert_eq!(q[0].name, b"maxRowsPerPartitionAmount".to_vec());
    assert_eq!(q[0].value, b"7".to_vec());
    assert_eq!(usize_to_decimal(0), b"0".to_vec());
    assert_eq!(usize_to_decimal(1009), b"1009".to_vec());
}

#[test]
fn builder_sets_what_the_writer_uses() {
    let w = MyNoSqlDataWriter::create_with_builder("settings", b"table")
        .set_sync_period(DataSynchronizationPeriod::Asap)
        .persist_table(false)
        .set_max_partitions_amount(10)
        .set_max_row_per_partitions_amount(20)
        .build();
    assert_eq!(w.sync_period, DataSynchronizationPeriod::Asap);
    assert_eq!(w.table_name, b"table".to_vec());
    let p = w.create_table_params.unwrap();
    assert!(!p.persist);
    assert_eq!(p.max_partitions_amount, Some(10));
    assert_eq!(p.max_rows_per_partition_amount, Some(20));
    let r = w.with_retries(3);
    assert_eq!(r.max_attempts, 3);
    assert_eq!(r.sync_period, DataSynchronizationPeriod::Asap);

    let b = MyNoSqlDataWriterBuilder::new(1u8, b"t");
    assert_eq!(b.sync_period, DataSynchronizationPeriod::Sec5);
    assert!(b.create_table_params.unwrap().persist);
    let w = b.do_not_auto_create_table().set_max_partitions_amount(5).build();
    assert!(w.create_table_params.is_none());
}

#[test]
fn ping_pool_groups_tables_by_application() {
    let mut pool: PingPoolInner<u8> = PingPoolInner::new();
    assert!(pool.register(b"app", b"1.0", b"t1", 1));
    assert!(!pool.register(b"app", b"1.0", b"t2", 2));
    assert!(!pool.register(b"app", b"2.0", b"t3", 3));
    assert_eq!(pool.items.len(), 2);
    assert_eq!(pool.items[0].table_settings.len(), 2);
    assert_eq!(pool.items[1].table_settings[0].0, b"t3".to_vec());
    assert!(pool.started);
}

#[test]
fn mock_reader_keeps_one_entity_per_key() {
    let mut m: MyNoSqlDataReaderMock<u32> = MyNoSqlDataReaderMock::new();
    m.update(MockEntity { partition_key: b"p".to_vec(), row_key: b"r".to_vec(), entity: 1 });
    m.update(MockEntity { partition_key: b"p".to_vec(), row_key: b"r".to_vec(), entity: 2 });
    m.update(MockEntity { partition_key: b"p".to_vec(), row_key: b"s".to_vec(), entity: 3 });
    assert_eq!(m.items.len(), 2);
    assert_eq!(m.get_entity(b"p", b"r"), Some(&2));
    assert!(m.delete(b"p", b"r").is_some());
    assert_eq!(m.get_entity(b"p", b"r"), None);
    assert!(m.delete(b"p", b"r").is_none());
    let _ = MyNoSqlReaderTcpSerializer::new();
    let s = TcpConnectionSettings::new("host");
    assert_eq!(s.settings, "host");
}

#[test]
fn sync_queues_keep_latest_reads_and_last_expirations() {
    let key = vec![b"table".to_vec(), b"pk".to_vec()];
    let mut reads = UpdatePartitionsLastReadTimeQueue::new();
    reads.enqueue_latest(&key, DateTimeAsMicroseconds::new(10));
    reads.enqueue_latest(&key, DateTimeAsMicroseconds::new(5));
    reads.enqueue_latest(&key, DateTimeAsMicroseconds::new(20));
    reads.enqueue_latest(&vec![b"table".to_vec(), b"other".to_vec()], DateTimeAsMicroseconds::new(1));
    assert_eq!(reads.len(), 2);
    let drained = reads.dequeue_all();
    assert_eq!(drained.len(), 2);
    assert_eq!(drained[0].key, key);
    assert_eq!(drained[0].value, DateTimeAsMicroseconds::new(20));
    assert_eq!(reads.len(), 0);

    let mut expirations = UpdatePartitionExpirationTimeQueue::new();
    expirations.enqueue(&key, Some(DateTimeAsMicroseconds::new(3)));
    expirations.enqueue(&key, None);
    let drained = expirations.dequeue_all();
    assert_eq!(drained.len(), 1);
    assert_eq!(drained[0].value, None);
}

#[test]
fn tables_grouped_by_url_for_pings() {
    let pairs = vec![
        (b"t1".to_vec(), b"http://a".to_vec()),
        (b"t2".to_vec(), b"http://b".to_vec()),
        (b"t3".to_vec(), b"http://a".to_vec()),
    ];
    let groups = group_tables_by_url(&pairs);
    assert_eq!(groups.len(), 2);
    assert_eq!(groups[0].url, b"http://a".to_vec());
    assert_eq!(groups[0].tables, vec![b"t1".to_vec(), b"t3".to_vec()]);
    assert_eq!(groups[1].tables, vec![b"t2".to_vec()]);
}

#[test]
fn mock_snapshot_lists_all_entities() {
    let mut m: MyNoSqlDataReaderMock<u32> = MyNoSqlDataReaderMock::new();
    assert!(m.get_table_snapshot_as_vec().is_none());
    m.update(MockEntity { partition_key: b"p".to_vec(), row_key: b"r".to_vec(), entity: 4 });
    assert_eq!(m.get_table_snapshot_as_vec(), Some(vec![&4]));
}
