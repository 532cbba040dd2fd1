//! Conversion of HTML table fragments into `tbl` layout blocks.
//!
//! `scan` recognises tags and attributes, `markup` builds the node tree and
//! strips tags, `layout` compiles a tree into a layout block, `text` holds
//! string helpers and `config` the pager and source settings.
pub mod scan;
pub mod markup;
pub mod text;
pub mod layout;
pub mod config;
