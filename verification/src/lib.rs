//! The core of a small web server: a router that sends a request to the most
//! specific handler mounted on a prefix of its path, the rules by which
//! files below a root directory are served, and two caches that keep slow
//! work from being repeated. The library decides; reading files, talking to
//! the network and waiting are left to its caller.
pub mod cache;
pub mod clock;
pub mod reply;
pub mod router;
pub mod single_flight;
pub mod static_server;
pub mod stream;
pub mod text;
