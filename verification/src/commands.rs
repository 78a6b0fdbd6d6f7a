//! The commands: what each decides, and how it moves the store.
pub mod reachability;
pub mod retention;
pub mod views;
pub mod maintenance;
pub mod validation;
pub mod checkpoints;
pub mod refresh;
pub mod publish;
pub mod discard;
pub mod conflicts;
pub mod history;
pub mod explain;
pub mod worlds;
pub mod monitor;
pub mod sessions;
pub mod hooks;
pub mod inspect;
pub mod replies;
