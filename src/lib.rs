pub mod line;
pub mod org;

pub use line::get_heading;
pub use org::Org;
pub mod laws;
