//! A local router for Codex and the decisions of the program around it.
#![allow(unused_imports)]
pub mod dates;
pub mod digest;
pub mod encoding;
pub mod ids;
pub mod json;
pub mod keymap;
pub mod local_router;
pub mod maintenance_lock;
pub mod message_delete;
pub mod model_catalog;
pub mod model_id;
pub mod notifications;
pub mod official_accounts;
pub mod official_login;
pub mod overlay_recovery;
pub mod pending_approval;
pub mod pet_slim_patch;
pub mod plugin_marketplace;
pub mod plugin_routes;
pub mod process_cleanup;
pub mod process_tree;
pub mod provider_lease;
pub mod provider_models;
pub mod slots;
pub mod text;
pub mod textmap;
pub mod urls;
