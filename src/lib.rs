//! Selection tracking, clipboard snapshots, operation dispatch and task
//! scheduling for a file manager, with their contracts proved by Verus.

pub mod location;
pub mod options;
pub mod package;
pub mod runtime;
pub mod scheduler;
pub mod selected;
pub mod tasks;
pub mod trigger;
pub mod yank;
