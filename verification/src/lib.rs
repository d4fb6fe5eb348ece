//! A continuous-time stochastic simulator for a process calculus in the
//! spirit of the stochastic pi-calculus.
//!
//! A program declares channels, each with a kinetic rate, and process
//! definitions, and runs a process. The simulator flattens the running process
//! into a machine term, a prefix of restrictions around a list of summations,
//! and reduces that term one reaction at a time while it keeps, for every
//! channel, the number of pending inputs and outputs.
//!
//! From a text to a run:
//! - [`tokenizer`] splits the text into tokens, and [`parser`] reads the
//!   tokens as a program of the surface [`syntax`];
//! - [`desugar`] turns written processes into the processes of [`ast`], which
//!   bind values of the language in [`lambda`];
//! - [`sim`] holds the simulator. It builds the [`machineterm`] of a process,
//!   keeps the counts of the [`store`], and fires reactions on channels that
//!   [`gillespie`] draws;
//! - [`machine`] says what the simulator does, as mathematics;
//!   [`accounting`] proves that the counts of the store stay those of the
//!   term, and [`scoping`] that every restricted channel gets a name of its
//!   own.
//!
//! The clock of a run is not kept here: the time that passes before a
//! reaction is a logarithm of a random number, for a caller to compute.
pub mod accounting;
pub mod ast;
pub mod desugar;
pub mod gillespie;
pub mod lambda;
pub mod machine;
pub mod machineterm;
pub mod names;
pub mod parser;
pub mod scoping;
pub mod sim;
pub mod store;
pub mod symgen;
pub mod syntax;
pub mod tokenizer;
pub mod values;
