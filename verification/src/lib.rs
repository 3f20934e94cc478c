//! Conversion of object-detection annotation sets to center-form label
//! files.
//!
//! Input documents arrive in one of two schemas: a standard one, with an
//! image list and a flat annotation list keyed by image id, boxes as
//! `[x, y, w, h]`; and a nested one, with per-image annotation lists and
//! boxes as a pair of corner points. Both decode into one unified
//! representation. Every box is then re-expressed as fractions of its
//! image's dimensions, the image list is split at random into training and
//! validation sets, each declared image name is resolved against the files
//! found under the input root, and the run's outcome — label files, image
//! copies, a class index — is laid out as a plan for the caller to perform.
//!
//! Coordinates are carried as integers in millionths (micro units), and the
//! center form is kept as exact rationals, so converting back loses nothing
//! and the six-decimal rendering of every label line is exact. The reader
//! for the input documents is verified against a specification-level reader
//! over the text. The only unverified steps are the two calls into the
//! `rand` crate that seed and apply the shuffle — everything after is
//! proved for every reordering — and two single-call wrappers over the
//! standard library's character decoding and string append.

pub mod json;
pub mod model;
pub mod num;
pub mod pipeline;
pub mod resolve;
pub mod schema;
pub mod split;
pub mod strutil;
pub mod yolo;
