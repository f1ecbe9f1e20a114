//! Request intake for an embedded-handler web server: a route prefix tree with
//! positional path parameters and an adaptively sized pool of worker contexts.

pub mod app;
pub mod assoc;
pub mod context;
pub mod discovery;
pub mod dispatcher;
pub mod handler_cache;
pub mod request;
pub mod response;
pub mod route_model;
pub mod route_tree;
pub mod string_map;
pub mod text;
