//! Murmur: a signed, hash-chained DAG of device and file actions with its
//! materialized state, the byte encodings of entries and messages, the
//! gossip wire format, pairing invitations, folder templates and device
//! configuration.

pub mod codec;
pub mod primitives;
pub mod base64url;
pub mod text;
pub mod types;
pub mod entry;
pub mod state;
pub mod clock;
pub mod dag;
pub mod topo;
pub mod wire;
pub mod message;
pub mod pairing;
pub mod templates;
pub mod config;
pub mod display;
pub mod engine;
pub mod folder_view;
pub mod launch;
pub mod app_flow;
pub mod screen_lists;
