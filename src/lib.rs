pub mod event;
pub mod rooms;
pub mod wire;
pub mod session;
pub mod decode;
pub mod relay;
