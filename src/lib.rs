//! A connection container: owns every live connection of an endpoint, keyed by
//! an internal id, and indexes the connections by the interests they express
//! (transmission, new connection id, timeout, closing, finalization).
//!
//! - `container`: the container, its interest lists and their walks;
//! - `handle`: exclusive, poisonable access to one connection;
//! - `accept`: the handoff queue to the acceptor;
//! - `id`: the internal id generator;
//! - `interest`: the interest set of a connection;
//! - `list`: the id lists the container is built from, and their laws;
//! - `event`: the records of observable lifecycle points.
pub mod accept;
pub mod container;
pub mod event;
pub mod handle;
pub mod id;
pub mod interest;
pub mod list;
