//! Lists the files that wiki-style references reach from seed notes of a vault.
pub mod paths;
pub mod references;
pub mod text;
pub mod traversal;


pub use paths::{
    ends_with, is_markdown, lookup_filename_in_vault, normalize_path, path_components, same_file,
};
pub use references::{collect_references, extract_references, reference_file, RefType, Token};
pub use traversal::{
    resolve_input_note, resolve_reference, NoteError, TraverseError, Traversal,
};
