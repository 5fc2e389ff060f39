//! Parsing core of a small git commit helper: porcelain status lines,
//! ignore files, path containment, branch names and the commit message
//! scaffold. Everything that runs `git`, touches the disk or prompts the
//! user lives outside this library and hands it plain text.
pub mod branch;
pub mod commands;
pub mod ignore;
pub mod message;
pub mod paths;
pub mod status;
pub mod text;

pub use branch::{branch_names, commit_count_of, format_branch_name};
pub use commands::{push_args, stash_args};
pub use ignore::{exclude_additions, filter_excluded, ignore_entries, is_excluded};
pub use message::commit_message;
pub use paths::{check_for_file_in_folder, root_search_step, RootStep};
pub use status::{
    classify_line, is_deletion_line, parse_changes, process_deteted_files, process_git_status,
    status_files,
    StatusLine,
};
