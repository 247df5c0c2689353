//! A generic two-dimensional grid stored as one flat row-major buffer, with
//! spatial queries, comparison, search and path finding on top of it.

pub mod appending;
pub mod color;
pub mod converter;
pub mod counting;
pub mod equality;
pub mod errors;
pub mod flattening;
pub mod flood_fill;
pub mod font;
pub mod font_encoders;
pub mod grid;
pub mod grid_matcher;
pub mod indexer;
pub mod iterating;
pub mod masks;
pub mod morphology;
pub mod maths;
pub mod pathing;
pub mod pathing_weighed;
pub mod reach;
pub mod region;
pub mod similarity;
pub mod similarity_settings;
pub mod storage;
pub mod sub_grid;

pub use color::Color;
pub use color::ColorConvertible;
pub use errors::GridError;
pub use font::glyphs::ContourPoint;
pub use font::parsing::Font;
pub use font_encoders::FontEncoder;
pub use font_encoders::FontEncoderFormat4;
pub use grid::Grid;
pub use grid_matcher::GridMatcher;
pub use indexer::GridIndexer;
pub use iterating::PixelIterator;
pub use iterating::PixelIteratorMut;
pub use masks::GridMask;
pub use masks::Maskable;
pub use region::GridRegion;
pub use similarity::Similarity;
pub use similarity_settings::SimilaritySettings;
pub use storage::byte_conversion::ByteConversion;
