//! A verified core for a URL-shortening service: an in-memory registry of
//! short codes, a durable text format for it with a proved round trip, a
//! short-code generator, and the service operations (create, get, list,
//! delete, redirect with visit tracking).
pub mod codec;
pub mod digits;
pub mod entry;
pub mod laws;
pub mod registry;
pub mod service;
