//! Verified core of a delivery-tracking notification bot: token parsing,
//! polling schedule, snapshot diffing and rendering, the subscription store,
//! and the decisions taken when a user joins or a poll round runs.

pub mod schedule;
pub mod text;
pub mod token_parse;
pub mod model;
pub mod notify;
pub mod config;
pub mod db;
pub(crate) mod sys;
pub mod tick;
pub mod bot;
