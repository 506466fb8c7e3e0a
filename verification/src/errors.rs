pub mod core_error;
