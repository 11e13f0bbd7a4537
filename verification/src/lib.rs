//! Dependency resolution over a Debian-style package database.
//!
//! A [`packages::Packages`] value records, for every known package, the
//! version that is installed, the version that is on offer, and the package's
//! dependency clauses. On top of it stand three operations: deciding whether a
//! clause is met by what is installed, the closure of a package's dependencies
//! over first alternatives, and the plan of what to install for a package.
//!
//! The modules:
//! - [`version`]: versions as ranks in a total order, and the five relations;
//! - [`model`]: the database and the three operations as mathematics;
//! - [`packages`]: the executable database and operations, each proved to
//!   compute what [`model`] defines;
//! - [`control`]: the grammar of control data, from which a database is read;
//! - [`text`]: the calls into the regex engine and the standard library that
//!   reading rests on, the only code here that is not proved;
//! - [`laws`], [`requeue`]: what holds of the operations on every database;
//! - [`lemmas`]: the facts that the proofs share.

pub mod control;
pub mod laws;
pub mod lemmas;
pub mod model;
pub mod packages;
pub mod requeue;
pub mod text;
pub mod version;
