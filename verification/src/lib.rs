pub mod index;
pub mod series;
pub mod traits;
pub mod types;
