//! Rewrites DNS answers so that clients reach addresses that are not blocked.
//!
//! [`proxy::App`] holds the state and decides what becomes of each answer;
//! [`rewrite`] says how a message is rewritten, and [`effects`] proves what that
//! does and does not do to it. [`laws`] states what becomes of every byte of a
//! message, [`layout`] how messages are laid out, [`promises`] what holds of
//! redirects, time and counters, [`readings`] and [`files`] how texts and files are
//! read, and [`service`], [`commands`] and [`page`] what holds of the rest.

pub mod address;
pub mod bytes;
pub mod commands;
pub mod config;
pub mod counters;
pub mod effects;
pub mod evasion;
pub mod exchange;
pub mod files;
pub mod http;
pub mod laws;
pub mod layout;
pub mod limits;
pub mod lists;
pub mod maintenance;
pub mod metrics;
pub mod page;
pub mod promises;
pub mod proxy;
pub mod ranges;
pub mod readings;
pub mod redirects;
pub mod rewrite;
pub mod service;
pub mod slots;
pub mod text;
pub mod wire;
