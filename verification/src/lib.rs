pub mod brief;
pub mod briefing;
pub mod clock;
pub mod cross_project;
pub mod href;
pub mod json;
pub mod labels;
pub mod number;
pub mod order;
pub mod overview;
pub mod pages;
pub mod proposals;
pub mod repair;
pub mod rules;
pub mod session_id;
pub mod tally;
pub mod text;
pub mod timeline;
pub mod transcripts;
pub mod union_find;
pub mod utf8;
