//! LocalLink's core logic: spaces, membership, add-on planning, trusted
//! devices, wire framing and session crypto.
pub mod text;
pub mod ids;
pub mod order;
pub mod strmap;
pub mod strset;
pub mod addons;
pub mod spaces;
pub mod membership;
pub mod runtime;
pub mod instances;
pub mod manager;
pub mod sync;
pub mod config;
pub mod protocol;
pub mod transport;
pub mod discovery;
pub mod api;
pub mod api_client;
pub mod ui;
pub mod clipboard;
pub mod echo;
pub mod probe;
pub mod external;
