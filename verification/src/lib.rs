pub mod text;
pub mod markdown;
pub mod error;
pub mod add;
pub mod grammar;
pub mod tags;
pub mod clock;
pub mod datalog;
pub mod config;
pub mod paths;
pub mod frontmatter;
pub mod last_edit;
pub mod list;
pub mod collect;
pub mod done;
pub mod cli;
pub mod properties;
