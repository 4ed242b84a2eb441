//! The logic of a language server that completes Behat steps in feature files.

pub mod completion;
pub mod composer_laws;
pub mod context_laws;
pub mod contexts;
pub mod document;
pub mod index;
pub mod index_laws;
pub mod json;
pub mod paths;
pub mod php;
pub mod php_laws;
pub mod progress;
pub mod psr4;
pub mod sameness;
pub mod sequences;
pub mod server;
pub mod session_laws;
pub mod snippet;
pub mod snippet_laws;
pub mod stages;
pub mod steps;
pub mod text;
pub mod text_laws;
pub mod view_laws;
pub mod watch;
pub mod yaml;
