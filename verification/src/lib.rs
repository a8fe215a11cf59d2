pub mod frontmatter;
pub mod parsers;
pub mod pattern;
pub mod providers;
pub mod record;
pub mod siena;
pub mod sorting;
pub mod text;
pub mod utils;
pub mod yaml;
