//! A verified store of hierarchical classification records.
//!
//! Every classification belongs to an optional parent and holds a rank among
//! its siblings. The store assigns identifiers and ranks, lists and updates
//! records, compacts the ranks of a sibling scope, and moves the items of a
//! parent onto a newly created child. The settings attached to a record
//! travel as text, which the codec writes and reads back.
//!
//! - `classification`: the record, its settings, and their defaults.
//! - `scope`, `scope_laws`: sibling scopes, their listing by rank, dense
//!   ranks, and what holds of them.
//! - `store`: the table of records and the operations on it.
//! - `codec`, `codec_laws`: the settings as text, and why reading gives
//!   back what was written.
//! - `text`, `number`: quoted texts and decimal integers, the two notations
//!   that the codec is made of.
//! - `error`: the failures that an operation can report.

pub mod classification;
pub mod codec;
pub mod codec_laws;
pub mod error;
pub mod number;
pub mod scope;
pub mod scope_laws;
pub mod store;
pub mod text;
