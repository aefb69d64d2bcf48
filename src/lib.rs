//! Turns a text of delimited source/destination pairs into an XML document of
//! HTTP redirect rules.
pub mod text;
pub mod config;
pub mod mapping;
pub mod document;
