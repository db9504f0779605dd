//! A chat server and client's network layer: a byte-level wire format for
//! values (`serialization`, over the in-memory streams of `stream` and the
//! little-endian integers of `le`, whose laws are in `integers`; those of composite values are in `wire`), the two directions of a connection
//! (`connection`), an interpreter for handshake protocols (`protocol`), the
//! chat's own handshake (`init`), the server's users and messages
//! (`structs`, `server`), the client's choice of server (`client`), the
//! extension traits (`addons`) and what the `Serializable` derive reads
//! (`derive`).
pub mod error;
pub mod stream;
pub mod serialization;
pub mod le;
pub mod integers;
pub mod wire;
pub mod connection;
pub mod protocol;
pub mod init;
pub mod structs;
pub mod server;
pub mod client;
pub mod addons;
pub mod derive;
