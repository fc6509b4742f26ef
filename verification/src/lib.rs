//! Verified core of a Markdown note-taking application.
//!
//! Texts are modelled as sequences of characters. Positions in a text are
//! byte offsets of its UTF-8 form, as callers of the library expect them.
use vstd::prelude::*;

pub mod ai;
pub mod block;
pub mod block_laws;
pub mod board;
pub mod board_laws;
pub mod board_view;
pub mod chat;
pub mod date;
pub mod date_laws;
pub mod document;
pub mod document_laws;
pub mod edit_laws;
pub mod editor;
pub mod file_laws;
pub mod graph_laws;
pub mod help;
pub mod history;
pub mod index;
pub mod index_laws;
pub mod inline;
pub mod inline_laws;
pub mod input;
pub mod keys;
pub mod layout;
pub mod line_laws;
pub mod palette;
pub mod paths;
pub mod query_laws;
pub mod render;
pub mod rope;
pub mod shown_laws;
pub mod sorting;
pub mod source_laws;
pub mod talk_laws;
pub mod template;
pub mod text;
pub mod tree_laws;
pub mod typing_laws;
pub mod undo_laws;
pub mod vault;
pub mod vault_laws;
pub mod view;
pub mod when;
pub mod workspace;

verus! {

} // verus!
