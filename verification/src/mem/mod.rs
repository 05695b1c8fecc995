pub mod field_layout;
pub mod flexible_array;
pub mod ref_counter;
