//! An in-memory store of JSON documents addressed by partition key and row key, with indexes of
//! expiration moments, a planner of collection, queues of updates for a main node, and the
//! settings of a writer to a remote store.

pub mod data_to_gc;
pub mod db_partition;
pub mod db_partitions_container;
pub mod db_row;
pub mod db_rows_container;
pub mod db_table;
pub mod db_table_reader;
pub mod expiration_index;
pub mod gc_select;
pub mod json_entity;
pub mod json_time_stamp;
pub mod keys;
pub mod laws;
pub mod my_no_sql_data_writer;
pub mod ping_pool;
pub mod reader;
pub mod sorted_keys;
pub mod sync_to_main;
pub mod time;
