//! Reader library for Thanos object-storage blocks.

pub mod bits;
pub mod block_choice;
pub mod block_index;
pub mod block_visibility;
pub mod chunk_reader;
pub mod config;
pub mod convert;
pub mod digest;
pub mod flight_service;
pub mod histogram;
pub mod histogram_writing;
pub mod hll;
pub mod labels;
pub mod metric_table;
pub mod name_set;
pub mod page_cache;
pub mod pattern;
pub mod series_answer;
pub mod series_plan;
pub mod sort;
pub mod sorted_map;
pub mod storage;
pub mod store_info;
pub mod store_service;
pub mod table;
pub mod text;
pub mod tsdb_index;
