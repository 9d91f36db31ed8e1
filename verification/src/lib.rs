//! A CSS box layout library: style values, a DOM tree, HTML and CSS parsing,
//! selector matching and the cascade, what declarations set and which nodes
//! become boxes, grid placement, table structure, line breaking for a
//! fixed-width text measure, and the metadata side of running layout test
//! files.

pub mod style;
pub mod text;
pub mod attrs;
pub mod dom;
pub mod html;
pub mod css;
pub mod cascade;
pub mod wpt_parser;
pub mod testharness;
pub mod runner;
pub mod computed;
pub mod properties;
pub mod measure;
pub mod grid;
pub mod table;
