//! A command-line unit-conversion library.
//!
//! Supports two measurement categories (temperature and length), converts
//! exactly on decimal values, formats a display string for every successful
//! conversion, and encodes the conversion history as a JSON document.

pub mod domain;
