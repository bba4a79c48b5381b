//! A process supervisor's decisions: which processes to stop, start and
//! restart, given the configuration an operator wants and what the running
//! processes report.

pub mod command;
pub mod config;
pub mod laws;
pub mod model;
pub mod outcome;
pub mod service;
pub mod supervisor;
