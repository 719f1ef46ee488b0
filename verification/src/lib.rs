//! A tableau (simplex) solver for linear programs over exact rational
//! arithmetic, using a symbolic Big-M penalty to start from equality and
//! greater-or-equal constraints without a separate feasibility phase.

pub mod rat;
pub mod inf_num;
pub mod equation;
pub mod problem;
pub mod simplex_table;
