//! A small entity-component store.
//!
//! Components are plain records kept in one append-only array per component
//! type. An entity is nothing but the list of array slots it owns. A query
//! names the component types it wants to read or write, and a callback is run
//! once for every entity that owns all of them, with references straight into
//! the arrays.
//!
//! Every function in this crate is verified: the contracts say which entities a
//! query visits, in which order, which slots the callback sees, and that the
//! access modes granted by the aliasing tracker never hand out a mutable
//! reference next to another reference to the same array.
//!
//! - [`world`]: the world, its entity builder, and the query entry point.
//! - [`tracker`]: the aliasing tracker that grants access modes per query.
//! - [`request`]: requirement lists fixed at compile time, and what the tracker
//!   answers to them.
//! - [`matching`]: which entities a query visits and which slots it resolves.
//! - [`model`]: what a query does to the component table, as mathematics.
//! - [`query`]: the engine that hands the callback its references.
//! - [`laws`]: general facts proved about all of the above.

pub mod error;
pub mod laws;
pub mod matching;
pub mod model;
pub mod query;
pub mod request;
pub mod tracker;
pub mod world;

pub use error::QueryError;
pub use request::{Access, Read, Requirement, SystemReq, Write};
pub use tracker::CompChk;
pub use world::{EntityBuilder, World, WorldView};
