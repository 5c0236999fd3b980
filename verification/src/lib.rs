//! The logic of a project panel: file badges and collapsible groups of test files.
pub mod badge;
pub mod badge_laws;
pub mod badges;
pub mod cache;
pub mod cache_laws;
pub mod earning_laws;
pub mod file_badges;
pub mod group_content_laws;
pub mod group_layout_laws;
pub mod group_state_laws;
pub mod group_update_laws;
pub mod json;
pub mod matcher;
pub mod order;
pub mod order_laws;
pub mod output_laws;
pub mod path_laws;
pub mod patterns;
pub mod plan;
pub mod read;
pub mod reading_laws;
pub mod record_laws;
pub mod rel_path;
pub mod request_laws;
pub mod root;
pub mod row_laws;
pub mod rules;
pub mod run;
pub mod run_laws;
pub mod settings_laws;
pub mod sorted_map;
pub mod step_laws;
pub mod test_group_laws;
pub mod test_groups;
pub mod text;
pub mod truth_laws;
pub mod value_laws;
pub mod view_laws;
pub mod worker;
pub mod worktree;
