//! Heap storage: the table page holding tuples, and the table directory
//! page listing table pages.

pub mod table_directory_page;
pub mod table_page;
