//! Verified core of a hosts-file editing tool: a lossless line parser, a
//! mutation engine applying whitelisted actions, an invariant guard over a
//! protected set of mappings, and a deterministic renderer.
pub mod config;
pub mod engine;
pub mod errors;
pub mod guard;
pub mod ip;
pub mod laws;
pub mod opts;
pub mod parse;
pub mod render;

pub use config::{safely_false, HostsEntry, HostsmodConfig};
pub use ip::{HostsPartFamily, IpAddress};
pub use opts::{Action, HostsArgs};
pub use parse::{
    is_space, maybe_hostname_alias, maybe_ip_addr, parse_hosts_file, try_parse_hosts, HostsPart,
};
