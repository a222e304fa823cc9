//! A DNS resolver that routes the addresses of listed domains into a tunnel
//! before answering, and the rules of the daemon that keeps the tunnel: what
//! is decided, without the sockets, files and processes it is done with.

pub mod text;
pub mod addr;
pub mod ipv6;
pub mod lists;
pub mod degraded;
pub mod config;
pub mod state;
pub mod dns;
pub mod table;
pub mod upstream;
pub mod route;
pub mod net;
pub mod probe;
pub mod pf;
pub mod geo;
pub mod sysdns;
pub mod journal;
pub mod links;
pub mod resolver;
pub mod lines;
pub mod status;
pub mod placement;
pub mod holding;
pub mod link;
pub mod tunnel;
pub mod sources;
pub mod paths;
pub mod socket;
pub mod daemon;
pub mod watch;
pub mod install;
pub mod args;
pub mod resolving;
