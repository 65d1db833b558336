pub mod bootstrap;
pub mod codec;
pub mod engine;
pub mod peers;
pub mod queue;
pub mod record;
pub mod table;
