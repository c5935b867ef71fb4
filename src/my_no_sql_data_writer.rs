use vstd::prelude::*;

use crate::keys::{bytes_eq, copy_bytes};

verus! {

/// How soon a write is to reach the readers.
#[derive(Clone, Copy, Debug, PartialEq, Eq, Structural)]
pub enum DataSynchronizationPeriod {
    Immediately,
    Sec1,
    Sec5,
    Sec15,
    Sec30,
    Min1,
    Asap,
}

/// The value of the `syncPeriod` query parameter for a period.
pub open spec fn sync_period_text(p: DataSynchronizationPeriod) -> Seq<u8> {
    match p {
        DataSynchronizationPeriod::Immediately => seq![105u8],
        DataSynchronizationPeriod::Sec1 => seq![49u8],
        DataSynchronizationPeriod::Sec5 => seq![53u8],
        DataSynchronizationPeriod::Sec15 => seq![49u8, 53u8],
        DataSynchronizationPeriod::Sec30 => seq![51u8, 48u8],
        DataSynchronizationPeriod::Min1 => seq![54u8, 48u8],
        DataSynchronizationPeriod::Asap => seq![97u8],
    }
}

impl DataSynchronizationPeriod {
    /// The value of the `syncPeriod` query parameter: i, 1, 5, 15, 30, 60 or a.
    pub fn as_query_value(&self) -> (r: Vec<u8>)
        ensures
            r@ == sync_period_text(*self),
    {
        let r: Vec<u8> = match self {
            DataSynchronizationPeriod::Immediately => vec![105u8],
            DataSynchronizationPeriod::Sec1 => vec![49u8],
            DataSynchronizationPeriod::Sec5 => vec![53u8],
            DataSynchronizationPeriod::Sec15 => vec![49u8, 53u8],
            DataSynchronizationPeriod::Sec30 => vec![51u8, 48u8],
            DataSynchronizationPeriod::Min1 => vec![54u8, 48u8],
            DataSynchronizationPeriod::Asap => vec![97u8],
        };
        assert(r@ =~= sync_period_text(*self));
        r
    }
}

/// The decimal digits of `n`.
pub open spec fn decimal(n: nat) -> Seq<u8>
    decreases n,
{
    if n < 10 {
        seq![(48 + n) as u8]
    } else {
        decimal(n / 10).push((48 + n % 10) as u8)
    }
}

/// The decimal digits of `n`.
pub fn usize_to_decimal(n: usize) -> (r: Vec<u8>)
    ensures
        r@ == decimal(n as nat),
    decreases n,
{
    if n < 10 {
        let r = vec![(48 + n) as u8];
        assert(r@ =~= decimal(n as nat));
        r
    } else {
        let mut r = usize_to_decimal(n / 10);
        r.push((48 + n % 10) as u8);
        r
    }
}

/// The bytes of `TableAlreadyExists`.
pub open spec fn table_already_exists_text() -> Seq<u8> {
    seq![84u8, 97, 98, 108, 101, 65, 108, 114, 101, 97, 100, 121, 69, 120, 105, 115, 116, 115]
}

fn table_already_exists_bytes() -> (r: Vec<u8>)
    ensures
        r@ == table_already_exists_text(),
{
    let r: Vec<u8> = vec![84u8, 97, 98, 108, 101, 65, 108, 114, 101, 97, 100, 121, 69, 120, 105, 115, 116, 115];
    assert(r@ =~= table_already_exists_text());
    r
}

/// The bytes of `TableNotFound`.
pub open spec fn table_not_found_text() -> Seq<u8> {
    seq![84u8, 97, 98, 108, 101, 78, 111, 116, 70, 111, 117, 110, 100]
}

fn table_not_found_bytes() -> (r: Vec<u8>)
    ensures
        r@ == table_not_found_text(),
{
    let r: Vec<u8> = vec![84u8, 97, 98, 108, 101, 78, 111, 116, 70, 111, 117, 110, 100];
    assert(r@ =~= table_not_found_text());
    r
}

/// The bytes of `RecordAlreadyExists`.
pub open spec fn record_already_exists_text() -> Seq<u8> {
    seq![82u8, 101, 99, 111, 114, 100, 65, 108, 114, 101, 97, 100, 121, 69, 120, 105, 115, 116, 115]
}

fn record_already_exists_bytes() -> (r: Vec<u8>)
    ensures
        r@ == record_already_exists_text(),
{
    let r: Vec<u8> = vec![82u8, 101, 99, 111, 114, 100, 65, 108, 114, 101, 97, 100, 121, 69, 120, 105, 115, 116, 115];
    assert(r@ =~= record_already_exists_text());
    r
}

/// The bytes of `RequiredEntityFieldIsMissing`.
pub open spec fn required_entity_field_is_missing_text() -> Seq<u8> {
    seq![82u8, 101, 113, 117, 105, 114, 101, 100, 69, 110, 116, 105, 116, 121, 70, 105, 101, 108, 100, 73, 115, 77, 105, 115, 115, 105, 110, 103]
}

fn required_entity_field_is_missing_bytes() -> (r: Vec<u8>)
    ensures
        r@ == required_entity_field_is_missing_text(),
{
    let r: Vec<u8> = vec![82u8, 101, 113, 117, 105, 114, 101, 100, 69, 110, 116, 105, 116, 121, 70, 105, 101, 108, 100, 73, 115, 77, 105, 115, 115, 105, 110, 103];
    assert(r@ =~= required_entity_field_is_missing_text());
    r
}

/// The bytes of `JsonParseFail`.
pub open spec fn json_parse_fail_text() -> Seq<u8> {
    seq![74u8, 115, 111, 110, 80, 97, 114, 115, 101, 70, 97, 105, 108]
}

fn json_parse_fail_bytes() -> (r: Vec<u8>)
    ensures
        r@ == json_parse_fail_text(),
{
    let r: Vec<u8> = vec![74u8, 115, 111, 110, 80, 97, 114, 115, 101, 70, 97, 105, 108];
    assert(r@ =~= json_parse_fail_text());
    r
}

/// The bytes of `maxPartitionsAmount`.
pub open spec fn max_partitions_amount_text() -> Seq<u8> {
    seq![109u8, 97, 120, 80, 97, 114, 116, 105, 116, 105, 111, 110, 115, 65, 109, 111, 117, 110, 116]
}

fn max_partitions_amount_bytes() -> (r: Vec<u8>)
    ensures
        r@ == max_partitions_amount_text(),
{
    let r: Vec<u8> = vec![109u8, 97, 120, 80, 97, 114, 116, 105, 116, 105, 111, 110, 115, 65, 109, 111, 117, 110, 116];
    assert(r@ =~= max_partitions_amount_text());
    r
}

/// The bytes of `maxRowsPerPartitionAmount`.
pub open spec fn max_rows_per_partition_amount_text() -> Seq<u8> {
    seq![109u8, 97, 120, 82, 111, 119, 115, 80, 101, 114, 80, 97, 114, 116, 105, 116, 105, 111, 110, 65, 109, 111, 117, 110, 116]
}

fn max_rows_per_partition_amount_bytes() -> (r: Vec<u8>)
    ensures
        r@ == max_rows_per_partition_amount_text(),
{
    let r: Vec<u8> = vec![109u8, 97, 120, 82, 111, 119, 115, 80, 101, 114, 80, 97, 114, 116, 105, 116, 105, 111, 110, 65, 109, 111, 117, 110, 116];
    assert(r@ =~= max_rows_per_partition_amount_text());
    r
}

/// The bytes of `persist`.
pub open spec fn persist_text() -> Seq<u8> {
    seq![112u8, 101, 114, 115, 105, 115, 116]
}

fn persist_bytes() -> (r: Vec<u8>)
    ensures
        r@ == persist_text(),
{
    let r: Vec<u8> = vec![112u8, 101, 114, 115, 105, 115, 116];
    assert(r@ =~= persist_text());
    r
}

/// The bytes of `false`.
pub open spec fn false_text() -> Seq<u8> {
    seq![102u8, 97, 108, 115, 101]
}

fn false_bytes() -> (r: Vec<u8>)
    ensures
        r@ == false_text(),
{
    let r: Vec<u8> = vec![102u8, 97, 108, 115, 101];
    assert(r@ =~= false_text());
    r
}

/// A query parameter: its name and value.
pub struct QueryParam {
    pub name: Vec<u8>,
    pub value: Vec<u8>,
}

/// A query parameter as the contracts see it.
pub open spec fn param_view(p: QueryParam) -> (Seq<u8>, Seq<u8>) {
    (p.name@, p.value@)
}

/// How a table is made where the writer makes it.
#[derive(Clone, Copy, Debug)]
pub struct CreateTableParams {
    pub persist: bool,
    pub max_partitions_amount: Option<usize>,
    pub max_rows_per_partition_amount: Option<usize>,
}

/// The query parameters that describe table settings, in the order they are sent.
pub open spec fn create_table_query(p: CreateTableParams) -> Seq<(Seq<u8>, Seq<u8>)> {
    let a = match p.max_partitions_amount {
        Some(n) => seq![(max_partitions_amount_text(), decimal(n as nat))],
        None => Seq::empty(),
    };
    let b = match p.max_rows_per_partition_amount {
        Some(n) => seq![(max_rows_per_partition_amount_text(), decimal(n as nat))],
        None => Seq::empty(),
    };
    let c = if p.persist {
        Seq::empty()
    } else {
        seq![(persist_text(), false_text())]
    };
    a + b + c
}

impl CreateTableParams {
    /// The query parameters of the settings: the limits that are set, and `persist=false`
    /// where the table is not persisted.
    pub fn populate_params(&self) -> (r: Vec<QueryParam>)
        ensures
            r@.map_values(|q: QueryParam| param_view(q)) == create_table_query(*self),
    {
        let mut r: Vec<QueryParam> = Vec::new();
        let ghost a: Seq<(Seq<u8>, Seq<u8>)> = match self.max_partitions_amount {
            Some(n) => seq![(max_partitions_amount_text(), decimal(n as nat))],
            None => Seq::empty(),
        };
        let ghost b: Seq<(Seq<u8>, Seq<u8>)> = match self.max_rows_per_partition_amount {
            Some(n) => seq![(max_rows_per_partition_amount_text(), decimal(n as nat))],
            None => Seq::empty(),
        };
        let ghost c: Seq<(Seq<u8>, Seq<u8>)> = if self.persist {
            Seq::empty()
        } else {
            seq![(persist_text(), false_text())]
        };
        if let Some(n) = self.max_partitions_amount {
            r.push(QueryParam { name: max_partitions_amount_bytes(), value: usize_to_decimal(n) });
        }
        assert(r@.map_values(|q: QueryParam| param_view(q)) =~= a);
        let ghost ra = r@;
        if let Some(n) = self.max_rows_per_partition_amount {
            r.push(
                QueryParam { name: max_rows_per_partition_amount_bytes(), value: usize_to_decimal(n) },
            );
        }
        assert(r@.map_values(|q: QueryParam| param_view(q)) =~= a + b);
        if !self.persist {
            r.push(QueryParam { name: persist_bytes(), value: false_bytes() });
        }
        assert(r@.map_values(|q: QueryParam| param_view(q)) =~= a + b + c);
        r
    }
}

/// The body of a failed request: a reason and a message.
pub struct OperationFailHttpContract {
    pub reason: String,
    pub message: String,
}

/// Why a request of the writer failed.
pub enum DataWriterError {
    TableAlreadyExists(String),
    TableNotFound(String),
    RecordAlreadyExists(String),
    RecordIsChanged(String),
    RequiredEntityFieldIsMissing(String),
    ServerCouldNotParseJson(String),
    NotSupportedReason(OperationFailHttpContract),
    Error(String),
}

/// The error that a reason of a failed request names; an unknown reason is kept as it came.
pub open spec fn error_kind(reason: Seq<u8>) -> int {
    if reason == table_already_exists_text() {
        0
    } else if reason == table_not_found_text() {
        1
    } else if reason == record_already_exists_text() {
        2
    } else if reason == required_entity_field_is_missing_text() {
        3
    } else if reason == json_parse_fail_text() {
        4
    } else {
        5
    }
}

/// The error variant, numbered as `error_kind` numbers them, and its message.
pub open spec fn error_view(e: DataWriterError) -> (int, Seq<char>) {
    match e {
        DataWriterError::TableAlreadyExists(m) => (0, m@),
        DataWriterError::TableNotFound(m) => (1, m@),
        DataWriterError::RecordAlreadyExists(m) => (2, m@),
        DataWriterError::RequiredEntityFieldIsMissing(m) => (3, m@),
        DataWriterError::ServerCouldNotParseJson(m) => (4, m@),
        DataWriterError::NotSupportedReason(c) => (5, c.message@),
        DataWriterError::RecordIsChanged(m) => (6, m@),
        DataWriterError::Error(m) => (7, m@),
    }
}

/// The error that the body of a failed request stands for.
pub fn error_from_fail_contract(contract: OperationFailHttpContract) -> (r: DataWriterError)
    ensures
        error_view(r) == (error_kind(vstd::utf8::encode_utf8(contract.reason@)), contract.message@),
{
    let reason = contract.reason.as_str().as_bytes();
    if bytes_eq(reason, table_already_exists_bytes().as_slice()) {
        DataWriterError::TableAlreadyExists(contract.message)
    } else if bytes_eq(reason, table_not_found_bytes().as_slice()) {
        DataWriterError::TableNotFound(contract.message)
    } else if bytes_eq(reason, record_already_exists_bytes().as_slice()) {
        DataWriterError::RecordAlreadyExists(contract.message)
    } else if bytes_eq(reason, required_entity_field_is_missing_bytes().as_slice()) {
        DataWriterError::RequiredEntityFieldIsMissing(contract.message)
    } else if bytes_eq(reason, json_parse_fail_bytes().as_slice()) {
        DataWriterError::ServerCouldNotParseJson(contract.message)
    } else {
        DataWriterError::NotSupportedReason(contract)
    }
}

/// A status code of success: 200 to 299.
pub fn is_ok_result(status_code: u16) -> (r: bool)
    ensures
        r == (200 <= status_code < 300),
{
    status_code >= 200 && status_code < 300
}

/// What a response's status code tells of the request.
#[derive(Clone, Copy, Debug, PartialEq, Eq, Structural)]
pub enum ResponseStatus {
    /// The body holds a failure to read.
    Fail,
    /// The table is missing.
    TableNotFound,
    /// Nothing is missing.
    NotFound,
    Success,
}

/// Sorts a status code: 400 carries a failure body, 409 a missing table, 404 a missing item.
pub fn check_status(status_code: u16) -> (r: ResponseStatus)
    ensures
        status_code == 400 ==> r == ResponseStatus::Fail,
        status_code == 409 ==> r == ResponseStatus::TableNotFound,
        status_code == 404 ==> r == ResponseStatus::NotFound,
        status_code != 400 && status_code != 409 && status_code != 404 ==> r == ResponseStatus::Success,
{
    if status_code == 400 {
        ResponseStatus::Fail
    } else if status_code == 409 {
        ResponseStatus::TableNotFound
    } else if status_code == 404 {
        ResponseStatus::NotFound
    } else {
        ResponseStatus::Success
    }
}

/// A writer to one table of a remote store: its settings, the table, how soon writes are to
/// reach readers, and how the table is made where it is missing.
pub struct MyNoSqlDataWriter<S> {
    pub settings: S,
    pub table_name: Vec<u8>,
    pub sync_period: DataSynchronizationPeriod,
    pub create_table_params: Option<CreateTableParams>,
}

/// A writer that retries each request up to a number of attempts.
pub struct MyNoSqlDataWriterWithRetries {
    pub table_name: Vec<u8>,
    pub sync_period: DataSynchronizationPeriod,
    pub create_table_params: Option<CreateTableParams>,
    pub max_attempts: usize,
}

impl<S> MyNoSqlDataWriter<S> {
    pub fn create_with_builder(settings: S, table_name: &[u8]) -> (r: MyNoSqlDataWriterBuilder<S>)
        ensures
            r.settings == settings,
            r.table_name@ == table_name@,
            r.sync_period == DataSynchronizationPeriod::Sec5,
            r.create_table_params == Some(
                CreateTableParams {
                    persist: true,
                    max_partitions_amount: None,
                    max_rows_per_partition_amount: None,
                },
            ),
    {
        MyNoSqlDataWriterBuilder::new(settings, table_name)
    }

    pub fn new(
        settings: S,
        table_name: &[u8],
        auto_create_table_params: Option<CreateTableParams>,
        sync_period: DataSynchronizationPeriod,
    ) -> (r: Self)
        ensures
            r.settings == settings,
            r.table_name@ == table_name@,
            r.sync_period == sync_period,
            r.create_table_params == auto_create_table_params,
    {
        MyNoSqlDataWriter {
            settings,
            table_name: copy_bytes(table_name),
            sync_period,
            create_table_params: auto_create_table_params,
        }
    }

    /// A writer of the same table and settings that retries up to `max_attempts` times.
    pub fn with_retries(&self, max_attempts: usize) -> (r: MyNoSqlDataWriterWithRetries)
        ensures
            r.table_name@ == self.table_name@,
            r.sync_period == self.sync_period,
            r.create_table_params == self.create_table_params,
            r.max_attempts == max_attempts,
    {
        MyNoSqlDataWriterWithRetries {
            table_name: copy_bytes(self.table_name.as_slice()),
            sync_period: self.sync_period,
            create_table_params: self.create_table_params,
            max_attempts,
        }
    }
}

/// Builds a writer step by step.
pub struct MyNoSqlDataWriterBuilder<S> {
    pub settings: S,
    pub table_name: Vec<u8>,
    pub sync_period: DataSynchronizationPeriod,
    pub create_table_params: Option<CreateTableParams>,
}

impl<S> MyNoSqlDataWriterBuilder<S> {
    /// Syncs every five seconds, and makes a persisted table without limits where it is
    /// missing.
    pub fn new(settings: S, table_name: &[u8]) -> (r: Self)
        ensures
            r.settings == settings,
            r.table_name@ == table_name@,
            r.sync_period == DataSynchronizationPeriod::Sec5,
            r.create_table_params == Some(
                CreateTableParams {
                    persist: true,
                    max_partitions_amount: None,
                    max_rows_per_partition_amount: None,
                },
            ),
    {
        MyNoSqlDataWriterBuilder {
            settings,
            table_name: copy_bytes(table_name),
            sync_period: DataSynchronizationPeriod::Sec5,
            create_table_params: Some(
                CreateTableParams {
                    persist: true,
                    max_partitions_amount: None,
                    max_rows_per_partition_amount: None,
                },
            ),
        }
    }

    pub fn set_sync_period(self, sync_period: DataSynchronizationPeriod) -> (r: Self)
        ensures
            r == (MyNoSqlDataWriterBuilder { sync_period, ..self }),
    {
        MyNoSqlDataWriterBuilder { sync_period, ..self }
    }

    /// Sets whether the table is persisted; nothing changes where no table is to be made.
    pub fn persist_table(self, value: bool) -> (r: Self)
        ensures
            r == (MyNoSqlDataWriterBuilder {
                create_table_params: match self.create_table_params {
                    Some(p) => Some(CreateTableParams { persist: value, ..p }),
                    None => None,
                },
                ..self
            }),
    {
        let params = match self.create_table_params {
            Some(p) => Some(CreateTableParams { persist: value, ..p }),
            None => None,
        };
        MyNoSqlDataWriterBuilder { create_table_params: params, ..self }
    }

    /// Sets the partition limit of the table; nothing changes where no table is to be made.
    pub fn set_max_partitions_amount(self, value: usize) -> (r: Self)
        ensures
            r == (MyNoSqlDataWriterBuilder {
                create_table_params: match self.create_table_params {
                    Some(p) => Some(CreateTableParams { max_partitions_amount: Some(value), ..p }),
                    None => None,
                },
                ..self
            }),
    {
        let params = match self.create_table_params {
            Some(p) => Some(CreateTableParams { max_partitions_amount: Some(value), ..p }),
            None => None,
        };
        MyNoSqlDataWriterBuilder { create_table_params: params, ..self }
    }

    /// Sets the row limit per partition; nothing changes where no table is to be made.
    pub fn set_max_row_per_partitions_amount(self, value: usize) -> (r: Self)
        ensures
            r == (MyNoSqlDataWriterBuilder {
                create_table_params: match self.create_table_params {
                    Some(p) => Some(
                        CreateTableParams { max_rows_per_partition_amount: Some(value), ..p },
                    ),
                    None => None,
                },
                ..self
            }),
    {
        let params = match self.create_table_params {
            Some(p) => Some(CreateTableParams { max_rows_per_partition_amount: Some(value), ..p }),
            None => None,
        };
        MyNoSqlDataWriterBuilder { create_table_params: params, ..self }
    }

    /// The writer is not to make the table.
    pub fn do_not_auto_create_table(self) -> (r: Self)
        ensures
            r == (MyNoSqlDataWriterBuilder { create_table_params: None, ..self }),
    {
        MyNoSqlDataWriterBuilder { create_table_params: None, ..self }
    }

    pub fn build(self) -> (r: MyNoSqlDataWriter<S>)
        ensures
            r.settings == self.settings,
            r.table_name@ == self.table_name@,
            r.sync_period == self.sync_period,
            r.create_table_params == self.create_table_params,
    {
        MyNoSqlDataWriter {
            settings: self.settings,
            table_name: self.table_name,
            sync_period: self.sync_period,
            create_table_params: self.create_table_params,
        }
    }
}

} // verus!
