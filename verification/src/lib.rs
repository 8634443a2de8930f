//! Verified core of a directory-tree navigator: the tree model, selection
//! and history rules, the screen layout helpers, and the shell-integration
//! text handling.

pub mod mode;
pub mod text;
pub mod path;
pub mod pathtext;
pub mod order;
pub mod config;
pub mod history;
pub mod node;
pub mod tree;
pub mod snapshot;
pub mod app;
pub mod view;
pub mod shell;
pub mod input;
pub mod rows;
pub mod step;

pub use mode::AppMode;
pub use path::TreePath;
pub use node::{FileNode, DirEntryInfo, LoadError};
pub use snapshot::DirSnapshot;
pub use app::{App, ListState};
pub use config::{Config, Theme, RgbColor};
pub use history::{History, HistoryEntry};
