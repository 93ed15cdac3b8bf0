//! Random-access, lazy traversal of tar archive images.
//!
//! The crate decodes fixed-size tar header blocks into structured metadata
//! (`tar`), exposes an in-memory image of the archive bytes together with
//! entry handles that read and seek independently over one entry's data
//! region (`base`), and gives a mathematical model of a full archive walk
//! with the laws the scanner obeys (`scan`).

pub mod base;
pub mod scan;
pub mod tar;
