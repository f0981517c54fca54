pub mod block;
pub mod session;
pub mod tool_event;
pub mod tree;
pub mod turn;
pub mod types;
