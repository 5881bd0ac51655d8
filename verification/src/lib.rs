pub mod board;

pub mod game;

pub mod generator;

mod rng;

pub mod solver;
