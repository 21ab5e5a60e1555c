//! What the operations are for: laws over their inputs and results.
pub mod acting;
pub mod calling;
pub mod contents;
pub mod counting;
pub mod drawing;
pub mod firing;
pub mod matching;
pub mod moving;
pub mod running;
pub mod scripting;
pub mod souls;
pub mod subscriptions;
pub mod tiers;
pub mod timing;
pub mod versions;
pub mod wording;
