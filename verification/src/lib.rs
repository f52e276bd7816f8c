//! The verified core of the `still` photo tool: organizing photos into
//! month and day directories, rating images through their file names,
//! preview and exposure planning, metadata framing, and the rating screen's
//! decisions.
use vstd::prelude::*;

// Shared text, paths and file kinds.
pub mod text;
pub mod paths;
pub mod media;
pub mod listing;

// Organizing photos by date.
pub mod calendar;
pub mod parsing;
pub mod layout;
pub mod group;
pub mod scan;
pub mod plan;

// Classifying files by extension.
pub mod classify;

// Rating images and the rating screen.
pub mod rating;
pub mod terminal;

// Previews and exposure.
pub mod previews;
pub mod exposure;
pub mod embedded;
pub mod thumbnails;
pub mod jpeg_validation;
pub mod metadata;
pub mod embedding;
