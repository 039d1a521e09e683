//! A k-bucket table: a capacity-bounded, distance-indexed container keyed by
//! fixed-length bit strings, as used by Kademlia-style routing tables.

pub mod default;

mod bucket;
pub mod node;
mod traits;

pub use bucket::Bucket;
pub use traits::Arbiter;
pub use traits::Direction;
pub use traits::GetDirection;
pub use traits::GetDistance;
pub use traits::GetKey;
pub use traits::KeyOrder;
pub use traits::LeadingZeros;
pub use traits::order_laws;
