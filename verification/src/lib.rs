pub mod catalog;
pub mod laws;
pub mod lock;
pub mod model;
pub mod split;
pub mod value;
