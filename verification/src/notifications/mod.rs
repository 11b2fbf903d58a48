//! Telling the user what sessions are doing.
pub mod ilink;
