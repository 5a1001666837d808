pub mod clock;
pub mod drain;
pub mod enqueue_tool;
pub mod identity;
pub mod mission_control;
pub mod queue;
pub mod queue_laws;
pub mod tasks;
pub mod tasks_laws;
pub mod text;
pub mod ws;
