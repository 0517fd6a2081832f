pub mod arena;
pub mod board;
pub mod bots;
pub mod completion;
pub mod coord_map;
pub mod error;
pub mod feature;
pub mod fx;
pub mod keys;
pub mod legality;
pub mod player;
pub mod referee;
pub mod render;
pub mod rng;
pub mod scoring;
pub mod seqs;
pub mod tile;
pub mod tilebag;
pub mod unique;
