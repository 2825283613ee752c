//! Airspace dataset tooling: import of community JSON and legacy sectorfile
//! sources into a canonical dataset, reconciliation against existing data,
//! serialization to the on-disk encodings, and a structural validator.

pub mod codec;
pub mod euroscope;
pub mod format;
pub mod model;
pub mod pipeline;
pub mod reconcile;
pub mod text;
pub mod validator;
pub mod vatglasses;
