pub mod slice;
pub mod skiplist;
pub mod memtable;
pub mod internal_database;
pub mod database;
pub mod protocol_parser;
