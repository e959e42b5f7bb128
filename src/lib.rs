//! Reads an outline document (headings made of repeated `*`, inline
//! emphasis, timestamps, links and logbook blocks) into a flat stream of
//! line-annotated tokens, and rebuilds the heading hierarchy from that
//! stream as a tree.
pub mod parser;
pub mod pattern;
pub mod scanner;
