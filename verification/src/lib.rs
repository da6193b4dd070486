//! Core of a chunked voxel world shared between an authoritative server and
//! its clients: block storage, face visibility and ambient occlusion, the
//! chunk life cycle, run-length transfer encoding, packet framing with
//! acknowledged delivery, and voxel ray traversal.

pub mod graphics;
pub mod net;
pub mod util;
pub mod world;
