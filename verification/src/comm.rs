pub mod heartbeat_channel;
pub mod manager_laws;
pub mod micromouse_manager;
pub mod micromouse_message;
pub mod protocol;
pub mod protocol_laws;
pub mod text;
pub mod text_laws;
pub mod website;
pub mod websocket;
