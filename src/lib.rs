//! A genetic search for course timetables: candidate tables that keep every
//! course in exactly one cell, their penalties for students and professors,
//! and the mutation, crossover and selection steps of the search.
pub mod constraints;
pub mod data;
pub mod fitness;
pub mod genetic;
pub mod laws;
pub mod model;
mod random;
pub mod timetable;
