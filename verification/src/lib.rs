//! Request routing for REST-style protocol servers, and idempotency tokens.
//!
//! A [`rest::RestRouter`] holds route specifications with their handlers,
//! ordered once by specificity, and selects for each request the handler of
//! the most specific route that matches, or says why there is none. What a
//! route specification is, the router takes from the trait
//! [`request_spec::RequestSpec`]; [`path_spec::PathSpec`] is one for a method
//! and a pattern of path segments. Routing errors are rendered as plain
//! [`response::ResponseParts`], which convert to `http` responses.
//!
//! Apart from routing, [`idempotency_token`] formats random 128-bit values
//! as version-4 UUIDs.

pub mod idempotency_token;
pub mod path_spec;
pub mod ranking;
pub mod request_spec;
pub mod response;
pub mod rest;
