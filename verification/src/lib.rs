pub mod error;
pub mod scale_constants;
pub mod scale_names;
pub mod text;
pub mod xml;
pub mod scale_info_schema;
pub mod scale_candidates;
pub mod scale_apply;
pub mod scale_ranking;
pub mod categorize;
pub mod paths;
pub mod output_path;
pub mod inspector;
pub mod overlay;
