pub mod path;
pub mod shared;
pub mod root_state;
