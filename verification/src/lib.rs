//! Hierarchical ignore-file support for file search: the `.gitignore`,
//! `.aiignore` and `.codexignore` families, their discovery across the
//! system, user, project and directory scopes, and the precedence rules
//! by which a path is finally ignored or kept.

pub mod family;
pub mod text;
pub mod path;
pub mod discovery;
pub mod gitignore;
pub mod matcher;
