//! A localized catalog read path: a query engine that joins category and
//! product relations into a grouped, deterministically ordered view, a
//! read-through cache in front of it, and a locale resolver that picks one
//! supported locale from a client's language preferences.

pub mod auth;
pub mod cache;
pub mod catalog;
pub mod codec;
pub mod engine;
pub mod locale;
pub mod text;
