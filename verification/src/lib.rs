//! A verified core for a text-adventure exploration agent: the world map
//! built from game observations, and the depth-first frontier planner.
pub mod text;
pub mod table;
pub mod world;
pub mod planner;
pub mod game;
pub mod runner;
pub mod llm;
pub mod logging;
pub mod agent;
pub mod config;
pub mod tui;
pub mod eval;
pub mod scoring;
