pub mod method_table;
pub mod params;
pub mod radix;
