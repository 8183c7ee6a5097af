//! Framework core of the CoveKit desktop toolbox: storage layout, data context,
//! close coordination, command registry, credential reference aggregation,
//! secure-store key resolution and the data package container.

pub mod text;
pub mod context;
pub mod paths;
pub mod brand_compat;
pub mod preferences;
pub mod window;

pub mod lifecycle;
pub mod exit;
pub mod ipc_registry;
pub mod module_manifest;
pub mod credential_refs;
pub mod credentials;
pub mod resource_monitor;
pub mod data_transfer;
pub mod secure_store;
