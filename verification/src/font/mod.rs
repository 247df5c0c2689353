pub mod reading;
pub mod tables;
pub mod glyphs;
pub mod parsing;
pub mod drawing;
