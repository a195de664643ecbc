pub mod chest;
pub mod door;
pub mod ladder;
pub mod specialblocks;
