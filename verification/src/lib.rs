//! Directory-jump engine: a frecency history, a short-term session stack and
//! an n-gram Markov chain over directory changes, with the matching, ordering
//! and parsing rules that pick where a query should jump.

pub mod text;
pub mod markov;
mod clock;
pub mod history;
pub mod session;
pub mod seeder;
pub mod matcher;
pub mod ranking;
pub mod cache;
pub mod cli;
pub mod register;
pub mod discovery;
pub mod paths;
