pub mod card;
pub mod error;
pub mod hand;
pub mod order;
pub mod parser;

pub use card::{Card, HandType, Rank, Suit};
pub use error::HandError;
pub use hand::Hand;
