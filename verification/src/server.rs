pub mod helpers;
pub mod state;
pub mod types;
