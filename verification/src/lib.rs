//! The core of a regular-expression engine: compiled programs, the input
//! cursor, a literal-prefix scanner, and two matching machines (a lock-step
//! simulation and a bounded backtracker), each with a proved contract.
//!
//! What a program matches is defined in `run`, as paths through its
//! instructions; both machines are proved to report the preferred match
//! from the first offset from which there is one. `laws` states what
//! follows for every search; `choice`, `order` and `trail` hold the proofs
//! that the machines rest on.

pub mod backtrack;
pub mod char;
pub mod choice;
pub mod compare;
pub mod input;
pub mod laws;
pub mod nfa;
pub mod order;
pub mod pool;
pub mod prefix;
pub mod program;
pub mod run;
pub mod trail;
