//! A directory-tree listing engine.
//!
//! The caller enumerates a directory and hands its children to
//! [`config::Tree::visit`], which filters, orders and renders them and says
//! which of them to descend into next.
pub mod config;
pub mod text;
pub mod entry;
pub mod order;
pub mod walk;
