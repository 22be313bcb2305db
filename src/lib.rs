pub mod card;
pub mod danger;
pub mod deck;
pub mod eval;
pub mod hand;
pub mod player;
pub mod prob;
pub mod rank;
pub mod score;
pub mod slots;
pub mod subsets;
pub mod tables;
