pub mod conversions;
pub mod dataframe;
pub mod error;
pub mod folds;
pub mod helpers;
pub mod index_map;
pub mod multirow_patterns;
pub mod parallel;
pub mod json;
pub mod manipulations;
pub mod parsed_config;
pub mod read_excel;
pub mod sheets;
pub mod single_cells;
pub mod text;
