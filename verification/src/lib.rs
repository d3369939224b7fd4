pub mod batch;
pub mod data;
pub mod db;
pub mod errors;
pub mod fio;
pub mod index;
pub mod iterator;
pub mod options;
pub mod util;
