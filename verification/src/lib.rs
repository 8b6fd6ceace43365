//! The logic of a small interactive shell: splitting a command line into words,
//! redirections, the built-in commands, tab completion and line editing.
pub mod text;
pub mod tokenize;
pub mod ordered;
pub mod completion;
pub mod builtins;
pub mod command;
pub mod shell;
pub mod line_editor;
