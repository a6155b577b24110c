//! An RPC toolkit over HTTP: response and request handling, service dispatch,
//! and RSA-protected request payloads.

pub mod call;
pub mod client;
pub mod decimal;
pub mod handler;
pub mod httprequest;
pub mod httpresponse;
pub mod message;
pub mod router;
pub mod rsa_crypto;
pub mod serialization_json;
pub mod server;
pub mod stub;
pub mod tcp_call;
pub mod text;
