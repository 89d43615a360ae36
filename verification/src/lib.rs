//! A web application firewall: request normalisation, a scored rule engine,
//! per-address rate limiting, a timed block list, alert de-duplication and the
//! decisions of the reverse proxy around them.

pub mod addr;
pub mod api;
pub mod audit;
pub mod block;
pub mod body;
pub mod bus;
pub mod cli;
pub mod clock;
pub mod config;
pub mod decode;
pub mod engine;
pub mod forward;
pub mod gate;
pub mod headers;
pub mod limiter;
pub mod matcher;
pub mod proxy;
pub mod reload;
pub mod settings;
pub mod table;
pub mod text;
pub mod tls;
