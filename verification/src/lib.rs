//! Normalization of parsed bibliographies: every record is flattened into a
//! self-contained entry whose fields include those inherited from the records
//! it refers to, and the entries are kept in ascending key order.

pub mod bib;
pub mod entry;
pub mod error;
pub mod fields;
pub mod fragment;
pub mod keyed;
pub mod order;
pub mod person;
pub mod reading;
pub mod record;

pub use crate::bib::SRABib;
pub use crate::entry::SRAEntry;
pub use crate::error::Error;
pub use crate::fragment::ValueFragment;
pub use crate::keyed::KeyedMap;
pub use crate::person::{RawPerson, SRAPerson};
pub use crate::record::{RawField, RawRecord, RecordStore};
