//! A small HTTP proxy toolkit: request parsing and rewriting, a port-list parser for
//! the port scanner, and round-robin backend selection for the reverse proxy.
pub mod port_scanner;
pub mod proxy;
pub mod reverse_proxy;
pub mod text;
