pub mod json;
pub mod text;
pub mod address;
pub mod selector;
pub mod match_pred;
pub mod term;
pub mod file_filter;
pub mod matcher;
pub mod search;
pub mod sources;
pub mod refs;
pub mod factor;
pub mod holes;
pub mod antiunify;
pub mod order;
pub mod report;
pub mod fca;
pub mod fleet_build;
pub mod parse;
pub mod rewrite;
pub mod schemas;
pub mod paths;
pub mod pen;
pub mod validate;
pub mod config;
pub mod fleet;
