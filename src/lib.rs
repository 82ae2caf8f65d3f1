//! A static ownership and borrow checker over a linear operation stream.
//!
//! A front end describes one function body as a table of variables and an
//! ordered list of operations (bindings, moves, borrows, reads, writes,
//! drops and scope markers). The checker tracks which places are live,
//! moved or dropped, which borrows are active and until when, destroys
//! the variables of each scope in reverse order of declaration, and
//! reports every violation it can detect as a structured diagnostic.
//! A separate engine infers elided lifetimes of function signatures and
//! solves their "outlives" constraints. A few small integer helpers
//! complete the crate.
pub mod diag;
pub mod ir;
pub mod laws;
pub mod numbers;
pub mod regions;
pub mod scopes;
pub mod flow;
