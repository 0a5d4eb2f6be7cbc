//! Decision logic of an edge tunnel node: relay-list handling, probe
//! planning, request routing and protocol header framing.

pub mod check;
pub mod config;
pub mod decimal;
pub mod text;
pub mod tunnel;
pub mod proxy;
pub mod relay_kv;
pub mod routing;
