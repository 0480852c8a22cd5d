//! Verified decision logic behind the per-frame instance upload of an RTS
//! client: which unit parts are drawn with which transform chain, how a
//! unit's highlight and team are packed into instance data, which order
//! lines are shown, and where the cursor icon goes.

pub mod highlight;
pub mod part_tree;
pub mod cursor;
pub mod orders;
pub mod records;
pub mod bars;
pub mod units;
pub mod session;
