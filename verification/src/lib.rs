//! Navigation core of a voxel-world agent: an incremental shortest-path
//! planner over a graph whose edge costs change while the agent moves, the
//! sign logic of ray clipping, and the shapes of the chat and packet data
//! that reach the agent.

pub mod chat;
pub mod convergence;
pub mod geometry;
pub mod open_queue;
pub mod optimality;
pub mod planner;
pub mod priority;
pub mod protocol;
pub mod replanning;
pub mod rounds;
pub mod scores;
pub mod search;
pub mod signing;
pub mod terrain;
pub mod weight;
