//! Core of a real-time chat relay: the wire codec for the JSON envelope,
//! the shared registry of connected identities, a bounded-lag broadcast
//! fanout, and the per-connection handler's decision logic.

pub mod codec;
pub mod fanout;
pub mod handler;
pub mod registry;

use vstd::prelude::*;

verus! {

/// The display name attributed to a chat message whose sender has not
/// registered.
pub open spec fn default_sender() -> Seq<u8> {
    seq![97u8, 110u8, 111u8, 110u8, 121u8, 109u8, 111u8, 117u8, 115u8]
}

} // verus!
