pub mod ambient;
pub mod block;
pub mod chunk;
pub mod client;
pub mod dimension;
pub mod direction;
pub mod entity;
pub mod generation;
pub mod lookup;
pub mod mesh;
pub mod observed;
pub mod pipeline;
pub mod position;
pub mod raycast;
pub mod refresh;
pub mod replay;
pub mod server;
pub mod settled;
pub mod structure;
pub mod trail;
pub mod visibility;
pub mod walk;
