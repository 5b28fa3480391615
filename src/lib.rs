//! Brute-force satisfiability for formulas in conjunctive normal form: a
//! parser for DIMACS-style CNF text and two exhaustive search strategies.
pub mod parser;
pub mod solver;
pub mod text;
