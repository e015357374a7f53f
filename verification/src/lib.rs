//! The rules of a local proxy that speeds up access to chosen hosts: it decrypts the traffic of
//! those hosts under certificates of its own and passes all other traffic through.

pub mod authority;
pub mod cert;
pub mod config;
pub mod desktop;
pub mod failure;
pub mod fields;
pub mod head;
pub mod hosts;
pub mod laws;
pub mod logs;
pub mod pool;
pub mod proxy;
pub mod text;
pub mod tls;
pub mod upstream;
