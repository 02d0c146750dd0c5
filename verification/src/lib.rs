//! The verified core of mac-shell, an interactive Unix-like shell.
//!
//! The library decides; its caller does the input and output. It splits
//! command lines into commands (`parser`), decides which of them run
//! (`parser::execute_all`), plans the built-in commands (`commands`, `ls`,
//! `listing_order`), completes words (`completion`), keeps and searches the
//! history (`history`) and edits the line being typed (`editor`).

pub mod text;
pub mod order;
pub mod parser;
pub mod pwd_state;
pub mod completion;
pub mod history;
pub mod ls;
pub mod listing_order;
pub mod commands;
pub mod welcome;
pub mod editor;
