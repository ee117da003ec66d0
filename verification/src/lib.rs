//! karamd: a recurring-task generator and task toolkit for taskmd markdown vaults.

pub mod text;
pub mod date;
pub mod due;
pub mod rule;
pub mod yaml;
pub mod taskmd;
pub mod task;
pub mod generate;
pub mod terminal;
pub mod output;
pub mod query;
pub mod validate;
pub mod next;
pub mod verbs;
pub mod reschedule;
pub mod run;
pub mod analyze;
