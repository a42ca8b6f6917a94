//! The core of a small task service.
//!
//! The service keeps tasks, and user accounts that nothing yet asks for, in
//! memory; it answers two kinds of request, a create and a read; and after
//! every create it writes all it holds out as one snapshot, which it reads
//! back when it next starts. This library is what the service decides, and
//! nothing of how it talks to the world:
//!
//! - [`record`] has the records and what they are as mathematical values;
//! - [`store`] has the record store and its operations;
//! - [`snapshot`] has the plain entries that a store is written out as and
//!   restored from;
//! - [`endpoint`] has what a create and a read do to the store and what they
//!   are answered with, and what holds of any run of them;
//! - [`origin`] has the rule by which an origin is let in.
//!
//! The program around it holds the store behind a lock, speaks HTTP, and
//! reads and writes the file.

pub mod endpoint;
pub mod origin;
pub mod record;
pub mod snapshot;
pub mod store;
mod text;
