//! open-runo: the verified core of the open-runo gateway and view layer.
pub mod text;
pub mod rustjson;
pub mod json_law;
pub mod strict_law;
pub mod key_order;
pub mod vdom;
pub mod diff;
pub mod patch_law;
pub mod render;
pub mod buf;
pub mod grpc;
pub mod route;
pub mod http;
pub mod ws;
pub mod multipart;
pub mod store;
pub mod session;
pub mod security;
pub mod auth;
pub mod middleware;
pub mod acme;
pub mod ssr;
pub mod hooks;
pub mod mcp;
pub mod validation;
pub mod openapi;
pub mod audit;
pub mod state;
