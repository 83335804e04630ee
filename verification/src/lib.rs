//! Verified codecs of a Minecraft server: the RakNet acknowledgement packet
//! and the SlimeWorld (`.slime`) world container.

pub mod acknowledge;
mod joining;
pub mod slime;
