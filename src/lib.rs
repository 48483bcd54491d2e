//! The editing core of a terminal text editor: positions, multi-cursor
//! selections, an invertible and composable edit algebra, undo history and
//! documents.
pub mod config;
pub mod document;
pub mod edit;
pub mod grapheme;
pub mod highlight;
pub mod history;
pub mod keymap;
pub mod language;
pub mod motion;
pub mod position;
pub mod rope_ext;
pub mod selection;
pub mod services;
pub mod text;
pub mod transaction;
pub mod tree;
pub mod view;

pub use config::{Config, EditorConfig, IndentStyle};
pub use document::{Document, DocumentId, LineEnding};
pub use grapheme::{grapheme_width, nth_next_grapheme, nth_prev_grapheme, RopeGraphemes};
pub use highlight::{Highlight, HighlightSpan};
pub use history::History;
pub use keymap::{Action, Key, KeyEvent, Keymap, Modifier};
pub use language::detect_language;
pub use position::Position;
pub use rope_ext::RopeExt;
pub use selection::{Range, Selection};
pub use services::{DiffStatus, LspClient, Repository};
pub use transaction::{Change, ChangeSet, Operation, Transaction};
pub use tree::{Layout, Node, Tree};
pub use view::{IdGenerator, View, ViewId};
pub use ropey::{Rope, RopeSlice};
