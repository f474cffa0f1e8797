//! ICMP echo (ping) wire logic: the RFC 1071 Internet checksum, the echo
//! message codec, and the echo session state that drives a send/receive
//! exchange over a raw socket owned by the caller.

pub mod checksum;
pub mod codec;
pub mod session;

pub use checksum::checksum;
pub use codec::{encode, patch_checksum, Error, Response};
pub use session::{Icmp, Version, DEFDATALEN, MAXIPLEN, MAXSEQ};
