//! A small library for managing the application settings of remotely hosted
//! web applications: it keeps a bearer credential fresh, merges an
//! operator-declared baseline of expected variable names with the live remote
//! configuration into one sorted, duplicate-free view, and turns an edited
//! view back into the full replacement mapping for the remote side.

pub mod account;
pub mod auth;
pub mod envs;
pub mod order;
pub mod share_structs;
pub mod webapp;
