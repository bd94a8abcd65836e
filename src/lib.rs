//! Multi-file sharing: a versioned manifest codec, the publish-side bookkeeping,
//! and the fetch-side transfer orchestrator, each with its contracts and laws.
pub mod throttle;
pub mod wire;
pub mod search;
pub mod text;
pub mod manifest;
pub mod events;
pub mod transfer;
pub mod publish;
pub mod paths;
