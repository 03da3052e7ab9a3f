pub mod text;
pub mod uri;
pub mod numparse;
pub mod numbits;
pub mod strsearch;
pub mod value;
pub mod constants;
pub mod frame;
pub mod global;
pub mod pattern;
pub mod regexp;
pub mod date;
pub mod jsonvalue;
pub mod json;
