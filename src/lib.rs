//! A client for a device-management protocol over a secure channel: request
//! framing, reply de-framing, the session's handshake and teardown, and a
//! schema-free decoder from reply markup to a tree value.
pub mod decode;
pub mod error;
pub mod framing;
pub mod host;
pub mod lookup;
pub mod session;
pub mod tree;

pub use decode::{decode_events, to_json, XmlEvent};
pub use error::Error;
pub use framing::{frame_request, FrameReader, GREETING};
pub use host::HostParameters;
pub use session::{Action, Outcome, Phase, Session};
pub use tree::Value;
