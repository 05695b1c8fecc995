pub mod classes;
pub mod maps;
pub mod state;
pub mod run;
