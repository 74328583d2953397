//! Filters for the output of the Salesforce CLI (`sf`).
pub mod cmds;
pub mod sf_cmd;
pub mod text;
