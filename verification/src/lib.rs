//! Reversible, field-granular change tracking for in-memory records.
//!
//! A [`Record`] is a tree of scalar values and nested records. Calling
//! [`Record::edit`] borrows the record exclusively and returns a [`Draft`] in
//! which replacement values are staged without touching the record.
//! [`Draft::commit`] writes the staged values and returns a [`ChangeSet`]
//! holding every value that was overwritten, addressed by [`FieldId`].
//! [`Record::apply`] replays a change set against a record and returns the
//! change set that reverts it, so one operation serves both undo and redo.
//!
//! The modules, from the leaves up:
//!
//! - [`value`], [`field_id`] and [`change`] hold the data that a change set
//!   is made of;
//! - [`record`] holds records, their shape, and apply;
//! - [`staged`] and [`draft`] hold the staging area, drafts, and commit;
//! - [`declare`] reads the declaration of a record type;
//! - [`laws`] states what holds of all of these, and [`lemmas`] holds what
//!   the laws and the code are proved from.

pub mod change;
pub mod declare;
pub mod draft;
pub mod field_id;
pub mod laws;
pub mod lemmas;
pub mod record;
pub mod staged;
pub mod value;

pub use change::{Change, ChangeSet, ChangeValue, TypeTag};
pub use draft::{Draft, DraftField, NestedDraft};
pub use field_id::FieldId;
pub use record::{Field, Mismatch, Record};
pub use staged::Staged;
pub use value::{Value, ValueType};
