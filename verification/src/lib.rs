//! `wenv` core: a verified library for a tool that runs commands with
//! environment variables loaded from env files.
//!
//! The heart of the library is the per-directory recency store ([`memory`]),
//! its persisted snapshot format ([`codec`]), the env-file line grammar
//! ([`env`]), alias expansion ([`config`]), and the debounced watch
//! supervisor's decision logic ([`watch`]).

pub mod cli;
pub mod codec;
pub mod config;
pub mod env;
pub mod memory;
pub mod run;
pub mod watch;
