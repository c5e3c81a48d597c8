//! Line-comment toggling and comment continuation for a text editor core.
//!
//! Given a document, a selection of character ranges, and a language's
//! line-comment token (or an ordered list of candidate tokens), this library
//! decides whether the selected lines are commented, builds the transaction
//! of character-exact edits that toggles that state, and computes the prefix
//! a new line should carry when it continues a commented line.
//!
//! The pieces: [`document`] models the text as lines; [`selection`] turns
//! character ranges into line ranges; [`comment`] classifies lines against a
//! token, matches tokens, builds the toggle transaction, and computes
//! continuation prefixes; [`transaction`] applies ordered, non-overlapping
//! changes and maps positions through them; [`laws`] states and proves the
//! library's properties, involution of the toggle first among them.

pub mod text;
pub mod document;
pub mod selection;
pub mod transaction;
pub mod comment;
pub mod laws;
