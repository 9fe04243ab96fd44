//! Structured, typed differences between two versions of a value.
//!
//! A composite value is described field by field ([`FieldPair`]): each field
//! has a name, a kind (scalar, sequence, set, map or nested composite) and an
//! old and a new value. [`diff_fields`] compares them and reports one
//! [`Change`] per affected field, element or key, after a snapshot of the
//! whole new value. Types implement [`HasChanges`] to describe themselves and
//! are compared with [`diff_changes`].
//!
//! Values are copied into the events, so the events do not borrow from the
//! compared values.

pub mod atom;
pub mod bus;
pub mod change;
pub mod changed;
pub mod descriptor;
pub mod field_paths;
mod index;
pub mod laws;
pub mod map_diff;
pub mod seq_diff;
pub mod set_diff;
pub mod structural;
pub mod value;

pub use atom::{Atom, AtomView};
pub use bus::ChangeEventBus;
pub use change::{Change, ChangeView};
pub use changed::{Changed, MapChanged};
pub use descriptor::{FieldPair, Pair};
pub use field_paths::{AsField, FieldName, HasFields, PathPrefix};
pub use map_diff::diff_map;
pub use seq_diff::diff_sequence;
pub use set_diff::diff_set;
pub use structural::{diff_changes, diff_fields, HasChanges};
pub use value::{Field, Record, Value};
