pub mod card;
pub mod pool;
pub mod classify;
pub mod compare;
pub mod deal;
