pub mod laws;
pub mod model;
pub mod parse;
pub mod scan;

pub use model::Alignment;
pub use model::Document;
pub use model::Header;
pub use model::ParseError;
