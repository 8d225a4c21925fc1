//! A personal task tracker: tasks with validated fields, a store keyed by
//! task name, and the delimited-text form in which the store is kept on disk.

pub mod date;
pub mod text;
pub mod task;
pub mod task_manager;
pub mod csv_handler;
