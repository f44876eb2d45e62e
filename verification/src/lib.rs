//! Zentinel: the decision core of a reverse proxy, verified with Verus.

pub mod acceptor;
pub mod addr;
pub mod advice;
pub mod apache;
pub mod binary;
pub mod cache;
pub mod config;
pub mod conformance;
pub mod deltas;
pub mod diff;
pub mod explain;
pub mod fingerprint;
pub mod import;
pub mod lint;
pub mod matching;
pub mod messages;
pub mod naming;
pub mod net;
pub mod nodes;
pub mod pattern;
pub mod presence;
pub mod profiles;
pub mod proxy_protocol;
pub mod request;
pub mod routing;
pub mod scaffold;
pub mod server;
pub mod settings;
pub mod shadow;
pub mod strmap;
pub mod text;
pub mod wire;
