//! Sirius Forester: a local-first foreman for AI coding agents.
pub mod amt;
pub mod config;
pub mod gate;
pub mod gitrange;
pub mod hayven;
pub mod json;
pub mod shell;
pub mod text;
pub mod ledger;
pub mod bridge;
pub mod run;
pub mod spine;
pub mod commands;
pub mod workspace;
pub mod doctor;
