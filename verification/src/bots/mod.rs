pub mod bot;
pub mod greedy_bot;
pub mod random_bot;
pub mod replay_bot;
pub mod tree;
