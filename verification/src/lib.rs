pub mod decode;
pub mod message;
pub mod notify;
pub mod pipeline;
pub mod scan;
pub mod state;
pub mod text;
