pub mod commands;
pub mod error;
pub mod extract;
pub mod git;
pub mod paths;
pub mod provider;
pub mod query;
pub mod record;
pub mod text;
