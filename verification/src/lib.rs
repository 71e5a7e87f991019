//! The logic of a terminal monitor for a Tailscale network: the device
//! model and its labels, the local status and metrics readers, the node
//! table with its orders and event log, and the texts the screen shows.

pub mod api;
pub mod app;
pub mod json;
pub mod metrics;
pub mod sorting;
pub mod status;
pub mod strmap;
pub mod text;
pub mod units;
pub mod view;
