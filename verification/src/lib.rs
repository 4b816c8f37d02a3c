//! Entitlement filtering for re-signing application bundles.
//!
//! An application's code-signing entitlements are read by an external
//! inspector and parsed into an ordered dictionary. This crate removes the
//! provisioned entitlement keys from such a dictionary, or reports which of
//! them are present, and turns the result back into a property-list document.

pub mod codec;
pub mod dict;
pub mod extract;
pub mod keys;
