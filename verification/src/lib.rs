//! An index of Markdown card files: each file becomes a card with a title,
//! tags, dates and a preview, found by a walk through a directory tree and
//! kept fresh by a watcher.
//!
//! The library decides and computes; it reads no file and sends no event.
//! Whoever uses it lists the directories and reads the files it asks for,
//! and hands on the batches and updates it gives.
//!
//! - [`text`], [`tags`], [`time`]: text, tag lists and timestamps.
//! - [`frontmatter`]: the header block of a file and its body.
//! - [`card`]: the card of one file.
//! - [`scanner`]: the walk through a directory tree, step by step.
//! - [`scan_laws`], [`scan_tree`], [`timestamp_order`]: what holds of every
//!   scan and of every timestamp.
//! - [`watcher`]: the watch session and the updates that changes give.
//! - [`commands`]: the name and first content of a new card file.

pub mod card;
pub mod commands;
pub mod frontmatter;
pub mod scan_laws;
pub mod scan_tree;
pub mod scanner;
pub mod tags;
pub mod text;
pub mod time;
pub mod timestamp_order;
pub mod watcher;
