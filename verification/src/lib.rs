pub mod clock;
pub mod engine;
pub mod order;
pub mod recording;
pub mod sorting_algorithms;
pub mod stats;
pub mod ui;
