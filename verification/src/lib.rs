//! Verified core of a Canvas LMS client and resource cache.
pub mod text;
pub mod links;
pub mod outside;
pub mod error;
pub mod headers;
pub mod pagination;
pub mod paging;
pub mod bytes;
pub mod id;
pub mod key;
pub mod store;
pub mod update;
pub mod socket;
pub mod cache;
pub mod client;
pub mod resource;
pub mod message;
pub mod selector;
pub mod search;
pub mod streams;
